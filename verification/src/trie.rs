//! The trie facade: a root node with a cached entry count, plus borrowed
//! subtrie views.

use vstd::prelude::*;
use crate::nibble::NibbleVec;
use crate::nibble::nibbles_of;
use crate::keys::TrieKey;
use crate::node::KeyValue;
use crate::node::TrieNode;
use crate::node::find;
use crate::node::wf_node;
use crate::node::kv_count;
use crate::node::insert_at;
use crate::node::remove_at;
use crate::node::get_at;
use crate::node::get_mut_at;
use crate::node::get_node_at;
use crate::node::get_ancestor_at;
use crate::node::update_value_at;
use crate::node::node_at;
use crate::node::anc;
use crate::node::check_node;
use crate::node::collect_pairs;
use crate::node::entries_seq;
use crate::node::lemma_entries_len;
use crate::node::lemma_anc_properties;
use crate::node::lemma_find_in_entries;
use crate::node::lemma_entries_in_find;
use crate::node::lemma_node_at_find;
use crate::node::is_prefix;

verus! {

/// The nibble path of a key: its byte encoding, lifted into nibbles.
pub open spec fn key_path<K: TrieKey>(k: K) -> Seq<u8> {
    nibbles_of(k.enc_spec())
}

/// An associative container keyed on nibble paths, with typed-key
/// disambiguation of encoding collisions.
pub struct Trie<K, V> {
    root: TrieNode<K, V>,
    length: usize,
}

impl<K: TrieKey, V> Trie<K, V> {
    /// The pair stored for a nibble path, if any.
    pub closed spec fn spec_find(&self, s: Seq<u8>) -> Option<KeyValue<K, V>> {
        find(self.root, s)
    }

    /// The value stored for a key: the pair at the key's path, provided the
    /// stored key equals it.
    pub open spec fn spec_get(&self, k: K) -> Option<V> {
        match self.spec_find(key_path(k)) {
            Some(kv0) => if k.key_eq_spec(&kv0.key) {
                Some(kv0.value)
            } else {
                None
            },
            None => None,
        }
    }

    /// Number of stored pairs.
    pub closed spec fn spec_len(&self) -> nat {
        kv_count(self.root)
    }

    /// Well-formedness: the root is a well-formed node with an empty
    /// fragment and the cached length counts the stored pairs.
    pub closed spec fn wf(&self) -> bool {
        &&& wf_node(self.root, Seq::<u8>::empty())
        &&& self.root.key@.len() == 0
        &&& self.length == self.spec_len()
    }

    /// Create an empty trie.
    pub fn new() -> (t: Trie<K, V>)
        ensures
            t.wf(),
            t.spec_len() == 0,
            forall|s: Seq<u8>| t.spec_find(s) is None,
    {
        Trie { root: TrieNode::new(), length: 0 }
    }

    /// The cached number of stored pairs.
    pub fn len(&self) -> (n: usize)
        requires
            self.wf(),
        ensures
            n == self.spec_len(),
    {
        self.length
    }

    /// Fetch a reference to the given key's corresponding value, if any.
    pub fn get(&self, key: &K) -> (r: Option<&V>)
        requires
            self.wf(),
        ensures
            match r {
                Some(v) => self.spec_get(*key) == Some(*v),
                None => self.spec_get(*key) is None,
            },
    {
        let enc = key.encode();
        let nv = NibbleVec::from_bytes(&enc);
        proof {
            assert(nv@.skip(0) =~= nv@);
        }
        match get_at(&self.root, &nv, 0, Ghost(Seq::<u8>::empty())) {
            Some(kvp) => {
                if key.key_eq(&kvp.key) {
                    Some(&kvp.value)
                } else {
                    None
                }
            },
            None => None,
        }
    }

    /// Insert the given pair, returning any value previously stored at the
    /// key's path; the length grows only for a fresh path.
    pub fn insert(&mut self, key: K, value: V) -> (r: Option<V>)
        requires
            old(self).wf(),
            old(self).spec_len() < usize::MAX,
        ensures
            final(self).wf(),
            r == match old(self).spec_find(key_path(key)) {
                Some(kv0) => Some(kv0.value),
                None => None::<V>,
            },
            forall|s: Seq<u8>| final(self).spec_find(s) == if s == key_path(key) {
                Some((KeyValue { key, value }))
            } else {
                old(self).spec_find(s)
            },
            final(self).spec_len() == old(self).spec_len() + (if old(self).spec_find(
                key_path(key),
            ) is Some {
                0nat
            } else {
                1nat
            }),
    {
        let enc = key.encode();
        let nv = NibbleVec::from_bytes(&enc);
        proof {
            assert(nv@.skip(0) =~= nv@);
            assert(Seq::<u8>::empty() + nv@ =~= nv@);
        }
        let mut tmp = TrieNode::new();
        core::mem::swap(&mut self.root, &mut tmp);
        let (nroot, prev) = insert_at(tmp, &nv, 0, KeyValue { key, value }, Ghost(Seq::<u8>::empty()));
        self.root = nroot;
        if prev.is_none() {
            self.length = self.length + 1;
        }
        prev
    }

    /// Remove the value stored for the given key, if its typed key matches;
    /// the tree is compacted and the length shrinks exactly on success.
    pub fn remove(&mut self, key: &K) -> (r: Option<V>)
        requires
            old(self).wf(),
        ensures
            final(self).wf(),
            r == match old(self).spec_find(key_path(*key)) {
                Some(kv0) => if key.key_eq_spec(&kv0.key) {
                    Some(kv0.value)
                } else {
                    None::<V>
                },
                None => None::<V>,
            },
            forall|s: Seq<u8>| final(self).spec_find(s) == if r is Some && s == key_path(*key) {
                None::<KeyValue<K, V>>
            } else {
                old(self).spec_find(s)
            },
            final(self).spec_len() + (if r is Some {
                1nat
            } else {
                0nat
            }) == old(self).spec_len(),
    {
        let enc = key.encode();
        let nv = NibbleVec::from_bytes(&enc);
        proof {
            assert(nv@.skip(0) =~= nv@);
        }
        let mut tmp = TrieNode::new();
        core::mem::swap(&mut self.root, &mut tmp);
        let (nroot, removed) = remove_at(tmp, &nv, 0, key, true, Ghost(Seq::<u8>::empty()));
        let nroot = match nroot {
            Some(nr) => nr,
            None => TrieNode::new(),
        };
        self.root = nroot;
        if removed.is_some() {
            self.length = self.length - 1;
        }
        removed
    }
}

/// A borrowed view rooted at a node, with the nibble path by which it was
/// reached from the root.
pub struct SubTrie<'a, K, V> {
    prefix: NibbleVec,
    node: &'a TrieNode<K, V>,
}

impl<'a, K: TrieKey, V> SubTrie<'a, K, V> {
    /// The nibble path from the root to the viewed node.
    pub closed spec fn spec_prefix(&self) -> Seq<u8> {
        self.prefix@
    }

    /// The pair stored at the viewed node, if any.
    pub closed spec fn spec_kv(&self) -> Option<KeyValue<K, V>> {
        self.node.key_value
    }

    /// The path by which this view was reached.
    pub fn prefix(&self) -> (r: &NibbleVec)
        ensures
            r@ == self.spec_prefix(),
    {
        &self.prefix
    }

    /// The value stored at the viewed node, if any.
    pub fn value(&self) -> (r: Option<&'a V>)
        ensures
            match r {
                Some(v) => self.spec_kv() matches Some(kv) && kv.value == *v,
                None => self.spec_kv() is None,
            },
    {
        match &self.node.key_value {
            Some(kvp) => Some(&kvp.value),
            None => None,
        }
    }
}

impl<K: TrieKey, V> Trie<K, V> {
    /// The node whose path from the root equals `s`, if any.
    pub closed spec fn spec_node_at(&self, s: Seq<u8>) -> Option<TrieNode<K, V>> {
        node_at(self.root, s)
    }

    /// The deepest value-bearing ancestor on the path of `k`: its nibble
    /// path and its pair.
    pub closed spec fn spec_ancestor(&self, k: K) -> Option<(Seq<u8>, KeyValue<K, V>)> {
        anc(self.root, key_path(k))
    }

    /// Fetch a view of the subtrie rooted at the node whose path equals the
    /// encoding of `key`, if such a node exists.
    pub fn subtrie<'a>(&'a self, key: &K) -> (r: Option<SubTrie<'a, K, V>>)
        requires
            self.wf(),
        ensures
            match r {
                Some(st) => {
                    &&& st.spec_prefix() == key_path(*key)
                    &&& self.spec_node_at(key_path(*key)) matches Some(nd) && st.spec_kv()
                        == nd.key_value
                },
                None => self.spec_node_at(key_path(*key)) is None,
            },
    {
        let enc = key.encode();
        let nv = NibbleVec::from_bytes(&enc);
        proof {
            assert(nv@.skip(0) =~= nv@);
        }
        match get_node_at(&self.root, &nv, 0, Ghost(Seq::<u8>::empty())) {
            Some(nd) => Some(SubTrie { prefix: nv, node: nd }),
            None => None,
        }
    }

    /// Fetch a view of the deepest ancestor of `key` that bears a value.
    pub fn get_ancestor<'a>(&'a self, key: &K) -> (r: Option<SubTrie<'a, K, V>>)
        requires
            self.wf(),
        ensures
            match r {
                Some(st) => self.spec_ancestor(*key) matches Some(a) && a.0 == st.spec_prefix()
                    && st.spec_kv() == Some(a.1),
                None => self.spec_ancestor(*key) is None,
            },
    {
        let enc = key.encode();
        let nv = NibbleVec::from_bytes(&enc);
        proof {
            assert(nv@.skip(0) =~= nv@);
        }
        match get_ancestor_at(&self.root, &nv, 0, Ghost(Seq::<u8>::empty())) {
            Some(pr) => {
                let (nd, end) = pr;
                let prefix = nv.prefix(end);
                proof {
                    assert(nv@.take(end as int) =~= nv@.subrange(0, end as int));
                }
                Some(SubTrie { prefix, node: nd })
            },
            None => None,
        }
    }

    /// Fetch the deepest ancestor value for `key`.
    pub fn get_ancestor_value(&self, key: &K) -> (r: Option<&V>)
        requires
            self.wf(),
        ensures
            match r {
                Some(v) => self.spec_ancestor(*key) matches Some(a) && a.1.value == *v,
                None => self.spec_ancestor(*key) is None,
            },
    {
        match self.get_ancestor(key) {
            Some(st) => st.value(),
            None => None,
        }
    }

    /// Apply `f` to the value stored at `key`, in place and without
    /// touching the stored key; if `key` holds no value — including when a
    /// different key that collides in nibble space sits at its path —
    /// insert `default` instead and leave `f` unused.
    pub fn map_with_default<F: FnOnce(V) -> V>(&mut self, key: K, f: F, default: V)
        requires
            old(self).wf(),
            old(self).spec_len() < usize::MAX,
            match old(self).spec_get(key) {
                Some(v0) => call_requires(f, (v0,)),
                None => true,
            },
        ensures
            final(self).wf(),
            final(self).spec_len() == old(self).spec_len() + (if old(self).spec_find(
                key_path(key),
            ) is Some {
                0nat
            } else {
                1nat
            }),
            match old(self).spec_get(key) {
                Some(v0) => exists|nv: V|
                    #[trigger] call_ensures(f, (v0,), nv) && (forall|s: Seq<u8>|
                        final(self).spec_find(s) == if s == key_path(key) {
                            Some(
                                (KeyValue {
                                    key: old(self).spec_find(key_path(key))->Some_0.key,
                                    value: nv,
                                }),
                            )
                        } else {
                            old(self).spec_find(s)
                        }),
                None => forall|s: Seq<u8>| final(self).spec_find(s) == if s == key_path(key) {
                    Some((KeyValue { key, value: default }))
                } else {
                    old(self).spec_find(s)
                },
            },
    {
        let enc = key.encode();
        let nv = NibbleVec::from_bytes(&enc);
        proof {
            assert(nv@.skip(0) =~= nv@);
        }
        let present: bool = match get_at(&self.root, &nv, 0, Ghost(Seq::<u8>::empty())) {
            Some(kvp) => key.key_eq(&kvp.key),
            None => false,
        };
        if present {
            let mut tmp = TrieNode::new();
            core::mem::swap(&mut self.root, &mut tmp);
            let (nroot, gnv) = update_value_at(tmp, &nv, 0, f, Ghost(Seq::<u8>::empty()));
            self.root = nroot;
            proof {
                let ghost kv0 = find(old(self).root, nv@)->Some_0;
                assert(call_ensures(f, (kv0.value,), gnv@));
            }
        } else {
            self.insert(key, default);
        }
    }
}

impl<K: TrieKey, V> Trie<K, V> {
    /// The stored pairs, in pre-order over the tree.
    pub closed spec fn spec_entries(&self) -> Seq<(K, V)> {
        entries_seq(self.root)
    }

    /// Recursively verify the structural invariants and the cached length.
    /// Diagnostic only: it decides exactly whether the trie is well formed.
    pub fn check_integrity(&self) -> (r: bool)
        ensures
            r == self.wf(),
    {
        let empty = NibbleVec::new();
        let (ok, counted) = check_node(&self.root, &empty);
        let key_empty: bool = self.root.key.len() == 0;
        ok && key_empty && counted == self.length
    }

    /// A single-pass iterator over the stored pairs.
    pub fn iter<'a>(&'a self) -> (r: Iter<'a, K, V>)
        requires
            self.wf(),
        ensures
            r.remaining() == self.spec_entries(),
    {
        Iter::new(self)
    }

    /// A single-pass iterator over the stored keys.
    pub fn keys<'a>(&'a self) -> (r: Keys<'a, K, V>)
        requires
            self.wf(),
        ensures
            r.remaining() == Seq::new(
                self.spec_entries().len(),
                |i: int| self.spec_entries()[i].0,
            ),
    {
        Keys::new(Iter::new(self))
    }

    /// A single-pass iterator over the stored values.
    pub fn values<'a>(&'a self) -> (r: Values<'a, K, V>)
        requires
            self.wf(),
        ensures
            r.remaining() == Seq::new(
                self.spec_entries().len(),
                |i: int| self.spec_entries()[i].1,
            ),
    {
        Values::new(Iter::new(self))
    }

    /// There are as many listed pairs as the length reports.
    pub proof fn lemma_entries_count(&self)
        requires
            self.wf(),
        ensures
            self.spec_entries().len() == self.spec_len(),
    {
        lemma_entries_len(self.root);
    }
}

/// Iterator over the pairs of a trie, in pre-order; single pass.
pub struct Iter<'a, K, V> {
    items: Vec<(&'a K, &'a V)>,
    pos: usize,
}

impl<'a, K: TrieKey, V> Iter<'a, K, V> {
    /// The pairs not yet yielded.
    pub closed spec fn remaining(&self) -> Seq<(K, V)> {
        if self.pos <= self.items@.len() {
            Seq::new(
                (self.items@.len() - self.pos) as nat,
                |i: int| (*self.items@[self.pos + i].0, *self.items@[self.pos + i].1),
            )
        } else {
            Seq::empty()
        }
    }

    /// Start an iteration over the whole trie.
    pub fn new(t: &'a Trie<K, V>) -> (r: Iter<'a, K, V>)
        requires
            t.wf(),
        ensures
            r.remaining() == t.spec_entries(),
    {
        let mut items: Vec<(&'a K, &'a V)> = Vec::new();
        collect_pairs(&t.root, &mut items, Ghost(Seq::<u8>::empty()));
        let r = Iter { items, pos: 0 };
        proof {
            assert(r.remaining() =~= entries_seq(t.root));
        }
        r
    }

    /// The next pair, if any is left.
    pub fn next(&mut self) -> (r: Option<(&'a K, &'a V)>)
        ensures
            old(self).remaining().len() == 0 ==> r is None && final(self).remaining()
                == old(self).remaining(),
            old(self).remaining().len() > 0 ==> (r matches Some(pr) && (*pr.0, *pr.1)
                == old(self).remaining()[0] && final(self).remaining() == old(
                self,
            ).remaining().skip(1)),
    {
        if self.pos < self.items.len() {
            let pr = self.items[self.pos];
            self.pos = self.pos + 1;
            proof {
                assert(final(self).remaining() =~= old(self).remaining().skip(1));
            }
            Some(pr)
        } else {
            None
        }
    }
}

/// Iterator over the keys of a trie; single pass.
pub struct Keys<'a, K, V> {
    inner: Iter<'a, K, V>,
}

impl<'a, K: TrieKey, V> Keys<'a, K, V> {
    /// The keys not yet yielded.
    pub closed spec fn remaining(&self) -> Seq<K> {
        Seq::new(self.inner.remaining().len(), |i: int| self.inner.remaining()[i].0)
    }

    /// Iterate over the keys that `iter` would yield.
    pub fn new(iter: Iter<'a, K, V>) -> (r: Keys<'a, K, V>)
        ensures
            r.remaining() == Seq::new(iter.remaining().len(), |i: int| iter.remaining()[i].0),
    {
        Keys { inner: iter }
    }

    /// The next key, if any is left.
    pub fn next(&mut self) -> (r: Option<&'a K>)
        ensures
            old(self).remaining().len() == 0 ==> r is None && final(self).remaining()
                == old(self).remaining(),
            old(self).remaining().len() > 0 ==> (r matches Some(k) && *k == old(
                self,
            ).remaining()[0] && final(self).remaining() == old(self).remaining().skip(1)),
    {
        let r = self.inner.next();
        proof {
            if old(self).remaining().len() > 0 {
                assert(final(self).remaining() =~= old(self).remaining().skip(1));
            } else {
                assert(final(self).remaining() =~= old(self).remaining());
            }
        }
        match r {
            Some(pr) => Some(pr.0),
            None => None,
        }
    }
}

/// Iterator over the values of a trie; single pass.
pub struct Values<'a, K, V> {
    inner: Iter<'a, K, V>,
}

impl<'a, K: TrieKey, V> Values<'a, K, V> {
    /// The values not yet yielded.
    pub closed spec fn remaining(&self) -> Seq<V> {
        Seq::new(self.inner.remaining().len(), |i: int| self.inner.remaining()[i].1)
    }

    /// Iterate over the values that `iter` would yield.
    pub fn new(iter: Iter<'a, K, V>) -> (r: Values<'a, K, V>)
        ensures
            r.remaining() == Seq::new(iter.remaining().len(), |i: int| iter.remaining()[i].1),
    {
        Values { inner: iter }
    }

    /// The next value, if any is left.
    pub fn next(&mut self) -> (r: Option<&'a V>)
        ensures
            old(self).remaining().len() == 0 ==> r is None && final(self).remaining()
                == old(self).remaining(),
            old(self).remaining().len() > 0 ==> (r matches Some(v) && *v == old(
                self,
            ).remaining()[0] && final(self).remaining() == old(self).remaining().skip(1)),
    {
        let r = self.inner.next();
        proof {
            if old(self).remaining().len() > 0 {
                assert(final(self).remaining() =~= old(self).remaining().skip(1));
            } else {
                assert(final(self).remaining() =~= old(self).remaining());
            }
        }
        match r {
            Some(pr) => Some(pr.1),
            None => None,
        }
    }
}

/// Insert-then-get: a trie that `insert` produced from `pre` with the pair
/// `(k, v)` answers a lookup of `k` with `v`.
pub proof fn lemma_insert_then_get<K: TrieKey, V>(post: Trie<K, V>, pre: Trie<K, V>, k: K, v: V)
    requires
        forall|s: Seq<u8>| post.spec_find(s) == if s == key_path(k) {
            Some((KeyValue { key: k, value: v }))
        } else {
            pre.spec_find(s)
        },
    ensures
        post.spec_get(k) == Some(v),
{
    k.lemma_key_eq_reflexive();
    assert(post.spec_find(key_path(k)) == Some((KeyValue { key: k, value: v })));
}

/// A lookup of a key other than the inserted one is unchanged by the
/// insertion, provided its encoding differs.
pub proof fn lemma_insert_preserves_others<K: TrieKey, V>(
    post: Trie<K, V>,
    pre: Trie<K, V>,
    k: K,
    v: V,
    k2: K,
)
    requires
        forall|s: Seq<u8>| post.spec_find(s) == if s == key_path(k) {
            Some((KeyValue { key: k, value: v }))
        } else {
            pre.spec_find(s)
        },
        key_path(k2) != key_path(k),
    ensures
        post.spec_get(k2) == pre.spec_get(k2),
{
}

/// Insert is idempotent up to overwrite: inserting at an occupied path
/// replaces the pair and leaves the length unchanged, and a second insert
/// of the same key leaves `get` at the second value.
pub proof fn lemma_insert_overwrite<K: TrieKey, V>(
    t0: Trie<K, V>,
    t1: Trie<K, V>,
    t2: Trie<K, V>,
    k: K,
    v1: V,
    v2: V,
)
    requires
        forall|s: Seq<u8>| t1.spec_find(s) == if s == key_path(k) {
            Some((KeyValue { key: k, value: v1 }))
        } else {
            t0.spec_find(s)
        },
        forall|s: Seq<u8>| t2.spec_find(s) == if s == key_path(k) {
            Some((KeyValue { key: k, value: v2 }))
        } else {
            t1.spec_find(s)
        },
        t2.spec_len() == t1.spec_len() + (if t1.spec_find(key_path(k)) is Some {
            0nat
        } else {
            1nat
        }),
    ensures
        t2.spec_get(k) == Some(v2),
        t2.spec_len() == t1.spec_len(),
        forall|s: Seq<u8>| t2.spec_find(s) == t1.spec_find(s) || s == key_path(k),
{
    k.lemma_key_eq_reflexive();
    assert(t1.spec_find(key_path(k)) == Some((KeyValue { key: k, value: v1 })));
}

/// Remove inverts insert: starting from a trie without `k`, inserting
/// `(k, v)` and then removing `k` yields `v` back and restores every lookup
/// and the length.
pub proof fn lemma_remove_inverts_insert<K: TrieKey, V>(
    t0: Trie<K, V>,
    t1: Trie<K, V>,
    t2: Trie<K, V>,
    k: K,
    v: V,
    removed: Option<V>,
)
    requires
        t0.spec_find(key_path(k)) is None,
        forall|s: Seq<u8>| t1.spec_find(s) == if s == key_path(k) {
            Some((KeyValue { key: k, value: v }))
        } else {
            t0.spec_find(s)
        },
        t1.spec_len() == t0.spec_len() + 1,
        removed == match t1.spec_find(key_path(k)) {
            Some(kv0) => if k.key_eq_spec(&kv0.key) {
                Some(kv0.value)
            } else {
                None::<V>
            },
            None => None::<V>,
        },
        forall|s: Seq<u8>| t2.spec_find(s) == if removed is Some && s == key_path(k) {
            None::<KeyValue<K, V>>
        } else {
            t1.spec_find(s)
        },
        t2.spec_len() + (if removed is Some {
            1nat
        } else {
            0nat
        }) == t1.spec_len(),
    ensures
        removed == Some(v),
        forall|s: Seq<u8>| t2.spec_find(s) == t0.spec_find(s),
        t2.spec_len() == t0.spec_len(),
{
    k.lemma_key_eq_reflexive();
    assert(t1.spec_find(key_path(k)) == Some((KeyValue { key: k, value: v })));
    assert forall|s: Seq<u8>| t2.spec_find(s) == t0.spec_find(s) by {
        if s == key_path(k) {
            assert(t2.spec_find(s) is None);
        }
    }
}

/// Ancestor semantics: the ancestor of `k` is a value-bearing prefix of
/// `k`'s path, and no strictly longer prefix in the trie bears a value;
/// when there is no ancestor, no prefix bears a value.
pub proof fn lemma_ancestor_semantics<K: TrieKey, V>(t: Trie<K, V>, k: K)
    requires
        t.wf(),
    ensures
        match t.spec_ancestor(k) {
            Some(a) => {
                &&& is_prefix(a.0, key_path(k))
                &&& t.spec_find(a.0) == Some(a.1)
                &&& forall|s: Seq<u8>| is_prefix(s, key_path(k)) && s.len() > a.0.len()
                    ==> t.spec_find(s) is None
            },
            None => forall|s: Seq<u8>| is_prefix(s, key_path(k)) ==> t.spec_find(s) is None,
        },
{
    lemma_anc_properties(t.root, key_path(k), Seq::<u8>::empty());
}

/// Iteration coverage: the listed pairs are exactly the stored pairs.
/// Every stored pair appears in the listing, every listed pair is stored at
/// the path its own key encodes, and the listing is as long as the length
/// reports.
pub proof fn lemma_iteration_coverage<K: TrieKey, V>(t: Trie<K, V>)
    requires
        t.wf(),
    ensures
        forall|q: Seq<u8>| (#[trigger] t.spec_find(q)) matches Some(kv) ==> t.spec_entries()
            .contains((kv.key, kv.value)),
        forall|i: int| 0 <= i < t.spec_entries().len() ==> ((#[trigger] t.spec_find(
            key_path(t.spec_entries()[i].0),
        )) matches Some(kv) && (kv.key, kv.value) == t.spec_entries()[i]),
        t.spec_entries().len() == t.spec_len(),
{
    lemma_entries_len(t.root);
    assert forall|q: Seq<u8>| #[trigger] t.spec_find(q) is Some implies t.spec_entries()
        .contains((t.spec_find(q)->Some_0.key, t.spec_find(q)->Some_0.value)) by {
        lemma_find_in_entries(t.root, Seq::<u8>::empty(), q);
    }
    assert forall|i: int| 0 <= i < t.spec_entries().len() implies #[trigger] t.spec_find(
        key_path(t.spec_entries()[i].0),
    ) is Some && (t.spec_find(key_path(t.spec_entries()[i].0))->Some_0.key,
    t.spec_find(key_path(t.spec_entries()[i].0))->Some_0.value) == t.spec_entries()[i] by {
        lemma_entries_in_find(t.root, Seq::<u8>::empty(), i);
        let enc = key_path(t.spec_entries()[i].0);
        assert(enc.skip(0) =~= enc);
    }
}


/// A found pair always comes from the list.
pub proof fn lemma_pairs_find_path<K: TrieKey, V>(ps: Seq<(K, V)>, s: Seq<u8>)
    ensures
        pairs_find(ps, s) is Some ==> exists|j: int|
            0 <= j < ps.len() && key_path(#[trigger] ps[j].0) == s,
    decreases ps.len(),
{
    if ps.len() > 0 && key_path(ps.last().0) != s {
        lemma_pairs_find_path(ps.drop_last(), s);
        if pairs_find(ps, s) is Some {
            let j = choose|j: int|
                0 <= j < ps.drop_last().len() && key_path(ps.drop_last()[j].0) == s;
            assert(key_path(ps[j].0) == s);
        }
    }
}

/// The pair that a list of insertions leaves at the nibble path `s`: the
/// last pair of the list whose key encodes to `s`, if any.
pub open spec fn pairs_find<K: TrieKey, V>(ps: Seq<(K, V)>, s: Seq<u8>) -> Option<KeyValue<K, V>>
    decreases ps.len(),
{
    if ps.len() == 0 {
        None
    } else if key_path(ps.last().0) == s {
        Some((KeyValue { key: ps.last().0, value: ps.last().1 }))
    } else {
        pairs_find(ps.drop_last(), s)
    }
}

impl<K: TrieKey, V> Trie<K, V> {
    /// Build a trie from a list of pairs, inserting them in order: on
    /// duplicate encodings the last write wins.
    pub fn from_pairs(pairs: Vec<(K, V)>) -> (t: Trie<K, V>)
        requires
            pairs@.len() < usize::MAX,
        ensures
            t.wf(),
            forall|s: Seq<u8>| #[trigger] t.spec_find(s) == pairs_find(pairs@, s),
            (forall|i: int, j: int|
                0 <= i < j < pairs@.len() ==> key_path(#[trigger] pairs@[i].0) != key_path(
                    #[trigger] pairs@[j].0,
                )) ==> t.spec_len() == pairs@.len(),
    {
        let ghost all = pairs@;
        let ghost distinct = forall|i: int, j: int|
            0 <= i < j < all.len() ==> key_path(#[trigger] all[i].0) != key_path(
                #[trigger] all[j].0,
            );
        let mut t: Trie<K, V> = Trie::new();
        let mut rest = pairs;
        while rest.len() > 0
            invariant
                rest@.len() <= all.len() < usize::MAX,
                rest@ == all.skip(all.len() - rest@.len()),
                t.wf(),
                t.spec_len() <= all.len() - rest@.len(),
                distinct == (forall|i: int, j: int|
                    0 <= i < j < all.len() ==> key_path(#[trigger] all[i].0) != key_path(
                        #[trigger] all[j].0,
                    )),
                distinct ==> t.spec_len() == all.len() - rest@.len(),
                forall|s: Seq<u8>| #[trigger] t.spec_find(s) == pairs_find(
                    all.take(all.len() - rest@.len()),
                    s,
                ),
            decreases rest@.len(),
        {
            let ghost i = all.len() - rest@.len();
            let (k, v) = rest.remove(0);
            proof {
                assert(rest@ =~= all.skip(i + 1));
                assert((k, v) == all[i]);
            }
            proof {
                if distinct {
                    lemma_pairs_find_path(all.take(i), key_path(all[i].0));
                    if pairs_find(all.take(i), key_path(all[i].0)) is Some {
                        let j = choose|j: int|
                            0 <= j < all.take(i).len() && key_path(all.take(i)[j].0) == key_path(
                                all[i].0,
                            );
                        assert(key_path(all[j].0) == key_path(all[i].0));
                        assert(false);
                    }
                }
            }
            t.insert(k, v);
            proof {
                let ghost taken = all.take(i + 1);
                assert(taken.last() == all[i]);
                assert(taken.drop_last() =~= all.take(i));
                assert forall|s: Seq<u8>| #[trigger] t.spec_find(s) == pairs_find(
                    all.take(i + 1),
                    s,
                ) by {
                    if s == key_path(all[i].0) {
                        assert(pairs_find(taken, s) == Some(
                            (KeyValue { key: all[i].0, value: all[i].1 }),
                        ));
                    } else {
                        assert(pairs_find(taken, s) == pairs_find(all.take(i), s));
                    }
                }
            }
        }
        proof {
            assert(all.take(all.len() as int) =~= all);
        }
        t
    }
}

/// The pair found along a path is the pair of the node that ends there: a
/// lookup and a subtrie view of the same encoded key agree.
pub proof fn lemma_subtrie_value<K: TrieKey, V>(t: Trie<K, V>, s: Seq<u8>)
    ensures
        t.spec_find(s) == match t.spec_node_at(s) {
            Some(m) => m.key_value,
            None => None::<KeyValue<K, V>>,
        },
{
    lemma_node_at_find(t.root, s);
}

impl<K: TrieKey, V> Trie<K, V> {
    /// A mutable reference to the value stored at the root node, which
    /// holds the empty-encoded key, if any; writing through it changes that
    /// stored value and nothing else.
    pub fn value_mut(&mut self) -> (r: Option<&mut V>)
        requires
            old(self).wf(),
        ensures
            final(self).wf(),
            final(self).spec_len() == old(self).spec_len(),
            match r {
                Some(v) => {
                    &&& old(self).spec_find(Seq::<u8>::empty()) is Some
                    &&& *v == old(self).spec_find(Seq::<u8>::empty())->Some_0.value
                    &&& forall|s: Seq<u8>| final(self).spec_find(s) == if s
                        == Seq::<u8>::empty() {
                        Some(
                            (KeyValue {
                                key: old(self).spec_find(Seq::<u8>::empty())->Some_0.key,
                                value: *final(v),
                            }),
                        )
                    } else {
                        old(self).spec_find(s)
                    }
                },
                None => {
                    &&& old(self).spec_find(Seq::<u8>::empty()) is None
                    &&& *final(self) == *old(self)
                },
            },
    {
        let ghost root0 = self.root;
        proof {
            assert(root0.key@.take(0) =~= root0.key@);
            assert(find(root0, Seq::<u8>::empty()) == root0.key_value);
        }
        match &mut self.root.key_value {
            Some(kvp) => {
                let r = &mut kvp.value;
                proof {
                    let ghost ab = after_borrow(self).root;
                    assert(ab.key == root0.key);
                    assert(ab.children == root0.children);
                    assert(ab.key_value == Some(
                        (KeyValue { key: root0.key_value->Some_0.key, value: *final(r) }),
                    ));
                    assert(ab.key@.take(0) =~= ab.key@);
                    assert(find(ab, Seq::<u8>::empty()) == ab.key_value);
                    assert forall|s: Seq<u8>| find(ab, s) == if s == Seq::<u8>::empty() {
                        Some((KeyValue { key: root0.key_value->Some_0.key, value: *final(r) }))
                    } else {
                        find(root0, s)
                    } by {
                        if s.len() == 0 {
                            assert(s =~= Seq::<u8>::empty());
                        } else {
                            let jj = s[0] as int;
                            if 0 <= jj < 16 {
                                assert(ab.children@[jj] == root0.children@[jj]);
                            }
                        }
                    }
                }
                Some(r)
            },
            None => None,
        }
    }
}

impl<K: TrieKey, V> Trie<K, V> {
    /// A mutable reference to the given key's corresponding value, if any;
    /// writing through it changes that stored value and nothing else.
    pub fn get_mut(&mut self, key: &K) -> (r: Option<&mut V>)
        requires
            old(self).wf(),
        ensures
            final(self).wf(),
            final(self).spec_len() == old(self).spec_len(),
            match r {
                Some(v) => {
                    &&& old(self).spec_get(*key) == Some(*v)
                    &&& forall|s: Seq<u8>| final(self).spec_find(s) == if s == key_path(*key) {
                        Some(
                            (KeyValue {
                                key: old(self).spec_find(key_path(*key))->Some_0.key,
                                value: *final(v),
                            }),
                        )
                    } else {
                        old(self).spec_find(s)
                    }
                },
                None => {
                    &&& old(self).spec_get(*key) is None
                    &&& forall|s: Seq<u8>| final(self).spec_find(s) == old(self).spec_find(s)
                },
            },
    {
        let enc = key.encode();
        let nv = NibbleVec::from_bytes(&enc);
        proof {
            assert(nv@.skip(0) =~= nv@);
        }
        get_mut_at(&mut self.root, &nv, 0, key, Ghost(Seq::<u8>::empty()))
    }
}

} // verus!
