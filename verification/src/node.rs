//! The recursive radix-trie node and its structural algorithms: lookup,
//! insertion with splitting, removal with compaction, ancestor lookup and
//! the integrity check.

use vstd::prelude::*;
use crate::nibble::NibbleVec;
use crate::nibble::nibbles_of;
use crate::keys::TrieKey;

verus! {

/// An owning key/value pair, carried by the node that terminates the key.
pub struct KeyValue<K, V> {
    pub key: K,
    pub value: V,
}

/// A radix-trie node: its fragment (the nibbles between the parent edge and
/// this node), an optional owning pair, and sixteen child slots indexed by
/// the first nibble of the child's fragment.
#[verifier::ext_equal]
pub struct TrieNode<K, V> {
    pub key: NibbleVec,
    pub key_value: Option<KeyValue<K, V>>,
    pub children: Vec<Option<Box<TrieNode<K, V>>>>,
}

/// `p` is a prefix of `s`.
pub open spec fn is_prefix(p: Seq<u8>, s: Seq<u8>) -> bool {
    p.len() <= s.len() && s.take(p.len() as int) == p
}

/// Number of occupied slots among the first `i` child slots.
pub open spec fn slot_count<K, V>(cs: Seq<Option<Box<TrieNode<K, V>>>>, i: int) -> int
    decreases i,
{
    if i <= 0 {
        0
    } else {
        slot_count(cs, i - 1) + if cs[i - 1] is Some {
            1int
        } else {
            0int
        }
    }
}

/// Number of value-bearing nodes in the subtrees of the first `i` slots.
pub open spec fn kv_sum<K, V>(cs: Seq<Option<Box<TrieNode<K, V>>>>, i: int) -> nat
    decreases cs, i,
    via kv_sum_dec::<K, V>
{
    if i <= 0 || i > cs.len() {
        0
    } else {
        kv_sum(cs, i - 1) + match cs[i - 1] {
            Some(c) => kv_count(*c),
            None => 0nat,
        }
    }
}

#[via_fn]
proof fn kv_sum_dec<K, V>(cs: Seq<Option<Box<TrieNode<K, V>>>>, i: int) {
    if 0 < i <= cs.len() {
        if cs[i - 1] is Some {
            let b = cs[i - 1]->Some_0;
            assert(decreases_to!(cs => cs[i - 1]));
            assert(decreases_to!(cs[i - 1] => b));
            assert(decreases_to!(cs, i => *b, 1int));
        }
    }
}

/// Number of value-bearing nodes in the subtree rooted at `n`, `n` included.
pub open spec fn kv_count<K, V>(n: TrieNode<K, V>) -> nat
    decreases n, 1int,
    via kv_count_dec::<K, V>
{
    (if n.key_value is Some {
        1nat
    } else {
        0nat
    }) + kv_sum(n.children@, 16)
}

#[via_fn]
proof fn kv_count_dec<K, V>(n: TrieNode<K, V>) {
    assert(decreases_to!(n => n.children));
    assert(decreases_to!(n.children => n.children@));
    assert(decreases_to!(n, 1int => n.children@, 16int));
}

/// Well-formedness of the slot `j` of a children array whose path from the
/// root is `p`: an occupied slot holds a node whose fragment is non-empty,
/// starts with the slot's nibble, and which is itself well formed; a
/// value-less child has at least two children of its own.
pub open spec fn wf_slot<K: TrieKey, V>(
    cs: Seq<Option<Box<TrieNode<K, V>>>>,
    p: Seq<u8>,
    j: int,
) -> bool
    decreases cs, 0int,
    via wf_slot_dec::<K, V>
{
    if 0 <= j < cs.len() {
        match cs[j] {
            Some(c) => {
                &&& c.key@.len() > 0
                &&& c.key@[0] as int == j
                &&& (c.key_value is None ==> slot_count(c.children@, 16) >= 2)
                &&& wf_node(*c, p)
            },
            None => true,
        }
    } else {
        true
    }
}

#[via_fn]
proof fn wf_slot_dec<K: TrieKey, V>(cs: Seq<Option<Box<TrieNode<K, V>>>>, p: Seq<u8>, j: int) {
    if 0 <= j < cs.len() {
        if cs[j] is Some {
            let b = cs[j]->Some_0;
            assert(decreases_to!(cs => cs[j]));
            assert(decreases_to!(cs[j] => b));
            assert(decreases_to!(cs, 0int => *b, 1int));
        }
    }
}

/// Well-formedness of the first `i` child slots.
pub open spec fn wf_slots<K: TrieKey, V>(
    cs: Seq<Option<Box<TrieNode<K, V>>>>,
    p: Seq<u8>,
    i: int,
) -> bool
    decreases cs, i,
    via wf_slots_dec::<K, V>
{
    if i <= 0 || i > cs.len() {
        true
    } else {
        wf_slots(cs, p, i - 1) && wf_slot(cs, p, i - 1)
    }
}

#[via_fn]
proof fn wf_slots_dec<K: TrieKey, V>(cs: Seq<Option<Box<TrieNode<K, V>>>>, p: Seq<u8>, i: int) {
}

/// Well-formedness of a node reached along the nibble path `p`: its fragment
/// holds nibbles, it has exactly sixteen child slots, a stored key encodes to
/// the full path into the node, and every occupied slot is well formed.
pub open spec fn wf_node<K: TrieKey, V>(n: TrieNode<K, V>, p: Seq<u8>) -> bool
    decreases n, 2int,
    via wf_node_dec::<K, V>
{
    &&& n.key.wf()
    &&& n.children@.len() == 16
    &&& match n.key_value {
        Some(kv) => nibbles_of(kv.key.enc_spec()) == p + n.key@,
        None => true,
    }
    &&& wf_slots(n.children@, p + n.key@, 16)
}

#[via_fn]
proof fn wf_node_dec<K: TrieKey, V>(n: TrieNode<K, V>, p: Seq<u8>) {
    assert(decreases_to!(n => n.children));
    assert(decreases_to!(n.children => n.children@));
    assert(decreases_to!(n, 2int => n.children@, 16int));
}

/// A well-formed slot range gives well-formedness of each slot in it.
pub proof fn lemma_wf_slots_index<K: TrieKey, V>(
    cs: Seq<Option<Box<TrieNode<K, V>>>>,
    p: Seq<u8>,
    i: int,
    j: int,
)
    requires
        wf_slots(cs, p, i),
        0 <= j < i,
        i <= cs.len(),
    ensures
        wf_slot(cs, p, j),
    decreases i,
{
    if j < i - 1 {
        lemma_wf_slots_index(cs, p, i - 1, j);
    }
}

/// Well-formedness of every slot below `i` gives the range form.
pub proof fn lemma_wf_slots_build<K: TrieKey, V>(
    cs: Seq<Option<Box<TrieNode<K, V>>>>,
    p: Seq<u8>,
    i: int,
)
    requires
        forall|j: int| 0 <= j < i ==> #[trigger] wf_slot(cs, p, j),
        i <= cs.len(),
    ensures
        wf_slots(cs, p, i),
    decreases i,
{
    if i > 0 {
        lemma_wf_slots_build(cs, p, i - 1);
        assert(wf_slot(cs, p, i - 1));
    }
}

/// The pair stored for the remaining nibble path `q` below `n`, if any:
/// `q` must extend `n`'s fragment; an exact match yields `n`'s own pair,
/// a longer path descends into the slot of its next nibble.
pub open spec fn find<K, V>(n: TrieNode<K, V>, q: Seq<u8>) -> Option<KeyValue<K, V>>
    decreases n,
    via find_dec::<K, V>
{
    let kl = n.key@.len() as int;
    if q.len() < kl || q.take(kl) != n.key@ {
        None
    } else if q.len() == kl {
        n.key_value
    } else {
        let j = q[kl] as int;
        if 0 <= j < n.children@.len() {
            match n.children@[j] {
                Some(c) => find(*c, q.skip(kl)),
                None => None,
            }
        } else {
            None
        }
    }
}

#[via_fn]
proof fn find_dec<K, V>(n: TrieNode<K, V>, q: Seq<u8>) {
    let kl = n.key@.len() as int;
    if q.len() > kl && q.take(kl) == n.key@ {
        let j = q[kl] as int;
        if 0 <= j < n.children@.len() {
            if n.children@[j] is Some {
                let b = n.children@[j]->Some_0;
                assert(decreases_to!(n => n.children));
                assert(decreases_to!(n.children => n.children@));
                assert(decreases_to!(n.children@ => n.children@[j]));
                assert(decreases_to!(n.children@[j] => b));
                assert(decreases_to!(n => *b));
            }
        }
    }
}

/// A sum over fewer slots is no larger.
pub proof fn lemma_kv_sum_monotonic<K, V>(cs: Seq<Option<Box<TrieNode<K, V>>>>, i: int, m: int)
    requires
        0 <= i <= m <= cs.len(),
    ensures
        kv_sum(cs, i) <= kv_sum(cs, m),
    decreases m,
{
    if m > i {
        lemma_kv_sum_monotonic(cs, i, m - 1);
    }
}

/// The subtree in one slot counts no more than the whole sum.
pub proof fn lemma_kv_sum_slot<K, V>(cs: Seq<Option<Box<TrieNode<K, V>>>>, j: int, m: int)
    requires
        0 <= j < m <= cs.len(),
        cs[j] is Some,
    ensures
        kv_count(*cs[j]->Some_0) + kv_sum(cs, j) <= kv_sum(cs, m),
    decreases m,
{
    if m > j + 1 {
        lemma_kv_sum_slot(cs, j, m - 1);
    }
}

/// Replacing the slot `j` changes the sum by the difference of the two
/// subtree counts.
pub proof fn lemma_kv_sum_update<K, V>(
    cs: Seq<Option<Box<TrieNode<K, V>>>>,
    j: int,
    x: Option<Box<TrieNode<K, V>>>,
    i: int,
)
    requires
        0 <= j < cs.len(),
        i <= cs.len(),
    ensures
        i <= j ==> kv_sum(cs.update(j, x), i) == kv_sum(cs, i),
        i > j ==> kv_sum(cs.update(j, x), i) + kv_opt(cs[j]) == kv_sum(cs, i) + kv_opt(x),
    decreases i,
{
    if i > 0 {
        lemma_kv_sum_update(cs, j, x, i - 1);
    }
}

/// Count of a possibly empty slot.
pub open spec fn kv_opt<K, V>(c: Option<Box<TrieNode<K, V>>>) -> nat {
    match c {
        Some(c) => kv_count(*c),
        None => 0nat,
    }
}

/// Replacing the slot `j` changes the occupied-slot count by the difference
/// of the two occupancy bits.
pub proof fn lemma_slot_count_update<K, V>(
    cs: Seq<Option<Box<TrieNode<K, V>>>>,
    j: int,
    x: Option<Box<TrieNode<K, V>>>,
    i: int,
)
    requires
        0 <= j < cs.len(),
        i <= cs.len(),
    ensures
        i <= j ==> slot_count(cs.update(j, x), i) == slot_count(cs, i),
        i > j ==> slot_count(cs.update(j, x), i) == slot_count(cs, i) + occ(x) - occ(cs[j]),
    decreases i,
{
    if i > 0 {
        lemma_slot_count_update(cs, j, x, i - 1);
    }
}

/// Occupancy bit of a slot.
pub open spec fn occ<K, V>(c: Option<Box<TrieNode<K, V>>>) -> int {
    if c is Some {
        1int
    } else {
        0int
    }
}

/// An all-empty children array has zero in both counts.
pub proof fn lemma_counts_empty<K, V>(cs: Seq<Option<Box<TrieNode<K, V>>>>, i: int)
    requires
        forall|j: int| 0 <= j < cs.len() ==> cs[j] is None,
        i <= cs.len(),
    ensures
        kv_sum(cs, i) == 0,
        slot_count(cs, i) == 0,
    decreases i,
{
    if i > 0 {
        lemma_counts_empty(cs, i - 1);
    }
}

/// A fresh children array: sixteen empty slots.
pub(crate) fn empty_children<K, V>() -> (cs: Vec<Option<Box<TrieNode<K, V>>>>)
    ensures
        cs@.len() == 16,
        forall|j: int| 0 <= j < 16 ==> cs@[j] is None,
{
    let mut cs: Vec<Option<Box<TrieNode<K, V>>>> = Vec::new();
    let mut i: usize = 0;
    while i < 16
        invariant
            i <= 16,
            cs@.len() == i,
            forall|j: int| 0 <= j < i ==> cs@[j] is None,
        decreases 16 - i,
    {
        cs.push(None);
        i = i + 1;
    }
    cs
}

impl<K: TrieKey, V> TrieNode<K, V> {
    /// An empty root node: empty fragment, no pair, no children.
    pub fn new() -> (n: TrieNode<K, V>)
        ensures
            wf_node(n, Seq::<u8>::empty()),
            n.key@.len() == 0,
            n.key_value is None,
            kv_count(n) == 0,
            slot_count(n.children@, 16) == 0,
            forall|q: Seq<u8>| find(n, q) is None,
    {
        let key = NibbleVec::new();
        let children = empty_children();
        let n = TrieNode { key, key_value: None, children };
        proof {
            lemma_counts_empty(n.children@, 16);
            assert forall|q: Seq<u8>| find(n, q) is None by {
                if q.len() == 0 {
                    assert(q.take(0) =~= n.key@);
                } else {
                    assert(q.take(0) =~= n.key@);
                    let j = q[0] as int;
                    if 0 <= j < 16 {
                        assert(n.children@[j] is None);
                    }
                }
            }
            assert forall|j: int| 0 <= j < 16 implies #[trigger] wf_slot(
                n.children@,
                Seq::<u8>::empty() + n.key@,
                j,
            ) by {
                assert(n.children@[j] is None);
            }
            lemma_wf_slots_build(n.children@, Seq::<u8>::empty() + n.key@, 16);
        }
        n
    }
}

impl<K: TrieKey, V> TrieNode<K, V> {
    /// Yield the stored value iff a pair is present and its key equals `k`.
    pub fn value_checked(&self, k: &K) -> (r: Option<&V>)
        ensures
            match self.key_value {
                Some(kv) => r == if k.key_eq_spec(&kv.key) {
                    Some(&kv.value)
                } else {
                    None::<&V>
                },
                None => r is None,
            },
    {
        match &self.key_value {
            Some(kv) => {
                if k.key_eq(&kv.key) {
                    Some(&kv.value)
                } else {
                    None
                }
            },
            None => None,
        }
    }
}

/// Walk from `n` along the nibbles of `q` past position `pos` and yield the
/// pair stored at the end of the walk, if any.
pub(crate) fn get_at<'a, K: TrieKey, V>(
    n: &'a TrieNode<K, V>,
    q: &NibbleVec,
    pos: usize,
    Ghost(p): Ghost<Seq<u8>>,
) -> (r: Option<&'a KeyValue<K, V>>)
    requires
        wf_node(*n, p),
        q.wf(),
        pos <= q@.len(),
    ensures
        match r {
            Some(kv) => find(*n, q@.skip(pos as int)) == Some(*kv),
            None => find(*n, q@.skip(pos as int)) is None,
        },
    decreases *n,
{
    let ghost q1 = q@.skip(pos as int);
    let ghost kl = n.key@.len() as int;
    let qlen: usize = q.len();
    let m: usize = n.key.match_count_from(q, pos);
    if m < n.key.len() {
        proof {
            if pos + m < q@.len() && (m as int) < q1.len() {
                assert(q1[m as int] == q@[pos + m]);
                assert(n.key@[m as int] != q1[m as int]);
                if q1.len() >= kl && q1.take(kl) == n.key@ {
                    assert(q1.take(kl)[m as int] == q1[m as int]);
                    assert(false);
                }
            } else {
                assert(q1.len() < kl);
            }
        }
        None
    } else if pos + m == qlen {
        proof {
            assert(n.key@.take(m as int) == q1.take(m as int));
            assert(n.key@ =~= n.key@.take(m as int));
            assert(q1 =~= q1.take(m as int));
        }
        n.key_value.as_ref()
    } else {
        let j: u8 = q.get(pos + m);
        proof {
            assert(n.key@.take(m as int) == q1.take(m as int));
            assert(q1.take(kl) =~= n.key@);
            assert(q1[kl] == q@.skip(pos as int)[kl]);
            assert(q@.skip(pos as int)[kl] == q@[pos + kl]);
            assert(j < 16);
        }
        let js = j as usize;
        match &n.children[js] {
            Some(b) => {
                proof {
                    lemma_wf_slots_index(n.children@, p + n.key@, 16, js as int);
                    assert(wf_slot(n.children@, p + n.key@, js as int));
                    assert(decreases_to!(*n => n.children));
                    assert(decreases_to!(n.children => n.children@));
                    assert(decreases_to!(n.children@ => n.children@[js as int]));
                    assert(q@.skip(pos as int).skip(kl) =~= q@.skip((pos + m) as int));
                }
                get_at(&**b, q, pos + m, Ghost(p + n.key@))
            },
            None => {
                None
            },
        }
    }
}

/// Dropping `a` then another `b` positions drops `a + b` positions.
pub proof fn lemma_skip_skip(s: Seq<u8>, a: int, b: int)
    requires
        0 <= a,
        0 <= b,
        a + b <= s.len(),
    ensures
        s.skip(a).skip(b) == s.skip(a + b),
{
    assert(s.skip(a).skip(b) =~= s.skip(a + b));
}

/// A sequence is its first `a` symbols followed by the rest.
pub proof fn lemma_take_skip_cat(s: Seq<u8>, a: int)
    requires
        0 <= a <= s.len(),
    ensures
        s.take(a) + s.skip(a) == s,
{
    assert(s.take(a) + s.skip(a) =~= s);
}

/// Lengthening a node's fragment in front relocates its subtree: a lookup
/// through the longer fragment equals a lookup below the prefix, and fails
/// off the prefix.
pub proof fn lemma_find_extend_key<K, V>(
    x: TrieNode<K, V>,
    y: TrieNode<K, V>,
    d: Seq<u8>,
    s: Seq<u8>,
)
    requires
        y.key@ == d + x.key@,
        y.key_value == x.key_value,
        y.children@ == x.children@,
    ensures
        is_prefix(d, s) ==> find(y, s) == find(x, s.skip(d.len() as int)),
        !is_prefix(d, s) ==> find(y, s) is None,
{
    let dl = d.len() as int;
    let klx = x.key@.len() as int;
    let kly = y.key@.len() as int;
    if is_prefix(d, s) {
        let s1 = s.skip(dl);
        assert(s1.len() == s.len() - dl);
        if s.len() >= kly && s.take(kly) == y.key@ {
            // the fragments match on both sides
            assert(s1.take(klx) =~= x.key@) by {
                assert(forall|i: int|
                    0 <= i < klx ==> s1.take(klx)[i] == s.take(kly)[dl + i] && y.key@[dl + i]
                        == x.key@[i]);
            }
            if s.len() == kly {
                assert(s1.len() == klx);
            } else {
                assert(s1[klx] == s[kly]);
                assert(s.skip(kly) =~= s1.skip(klx));
            }
        } else {
            // the fragments fail on both sides
            if s1.len() >= klx && s1.take(klx) == x.key@ {
                assert(s.take(kly) =~= y.key@) by {
                    assert(forall|i: int|
                        0 <= i < kly ==> s.take(kly)[i] == (if i < dl {
                            d[i]
                        } else {
                            s1.take(klx)[i - dl]
                        }));
                }
                assert(false);
            }
        }
    } else {
        // `s` leaves the prefix, so it leaves the longer fragment too
        if s.len() >= kly && s.take(kly) == y.key@ {
            assert(d =~= s.take(dl)) by {
                assert(forall|i: int| 0 <= i < dl ==> d[i] == y.key@[i] && s.take(kly)[i] == s[i]);
            }
            assert(false);
        }
    }
}

/// Insert the pair `kv`, whose remaining encoded path is `q` past `pos`,
/// into the subtree rooted at the owned node `n`: yields the updated
/// subtree and the value previously stored at that path, if any.
#[verifier::rlimit(100)]
pub(crate) fn insert_at<K: TrieKey, V>(
    n: TrieNode<K, V>,
    q: &NibbleVec,
    pos: usize,
    kv: KeyValue<K, V>,
    Ghost(p): Ghost<Seq<u8>>,
) -> (res: (TrieNode<K, V>, Option<V>))
    requires
        wf_node(n, p),
        q.wf(),
        pos <= q@.len(),
        nibbles_of(kv.key.enc_spec()) == p + q@.skip(pos as int),
        n.key@.len() > 0 ==> pos < q@.len() && q@[pos as int] == n.key@[0],
        n.key@.len() > 0 ==> n.key_value is Some || slot_count(n.children@, 16) >= 2,
    ensures
        wf_node(res.0, p),
        n.key@.len() > 0 ==> res.0.key@.len() > 0 && res.0.key@[0] == n.key@[0],
        n.key@.len() == 0 ==> res.0.key@ == n.key@,
        res.0.key_value is Some || slot_count(res.0.children@, 16) >= 2 || (n.key_value is None
            && slot_count(res.0.children@, 16) >= slot_count(n.children@, 16)),
        forall|s: Seq<u8>| #[trigger] find(res.0, s) == if s == q@.skip(pos as int) {
            Some(kv)
        } else {
            find(n, s)
        },
        res.1 == match find(n, q@.skip(pos as int)) {
            Some(kv0) => Some(kv0.value),
            None => None::<V>,
        },
        kv_count(res.0) == kv_count(n) + if find(n, q@.skip(pos as int)) is Some {
            0nat
        } else {
            1nat
        },
    decreases n,
{
    let ghost q1 = q@.skip(pos as int);
    let ghost kl = n.key@.len() as int;
    let ghost pp = p + n.key@;
    let ghost cs0 = n.children@;
    let qlen: usize = q.len();
    let mut node = n;
    let m: usize = node.key.match_count_from(q, pos);
    if m == node.key.len() && pos + m == qlen {
        // exact hit: install the pair here, yielding any previous value
        proof {
            assert(n.key@.take(m as int) == q1.take(m as int));
            assert(n.key@ =~= n.key@.take(m as int));
            assert(q1 =~= q1.take(m as int));
            assert(q1 == n.key@);
        }
        let prior = node.key_value.take();
        node.key_value = Some(kv);
        let prev = match prior {
            Some(okv) => Some(okv.value),
            None => None,
        };
        proof {
            assert(find(n, q1) == n.key_value);
            assert(nibbles_of(kv.key.enc_spec()) == p + node.key@);
            assert(wf_node(node, p));
            assert forall|s: Seq<u8>| #[trigger] find(node, s) == if s == q1 {
                Some(kv)
            } else {
                find(n, s)
            } by {
                if s == q1 {
                    assert(find(node, s) == Some(kv));
                } else {
                    let sl = s.len();
                    if sl >= kl && s.take(kl) == n.key@ {
                        if sl == kl {
                            assert(s =~= n.key@);
                        } else {
                            let jj = s[kl] as int;
                            if 0 <= jj < 16 {
                                assert(node.children@[jj] == n.children@[jj]);
                            }
                        }
                    }
                }
            }
        }
        (node, prev)
    } else if m == node.key.len() {
        // descend: the fragment is consumed, follow the next nibble
        proof {
            assert(n.key@.take(m as int) == q1.take(m as int));
            assert(n.key@ =~= n.key@.take(m as int));
            assert(q1.take(kl) == n.key@);
        }
        let j: u8 = q.get(pos + m);
        let js: usize = j as usize;
        proof {
            assert(q1[kl] == q@.skip(pos as int)[kl]);
            assert(q@.skip(pos as int)[kl] == q@[pos + kl]);
            assert(j < 16);
            lemma_wf_slots_index(cs0, pp, 16, js as int);
            lemma_skip_skip(q@, pos as int, m as int);
            lemma_take_skip_cat(q1, m as int);
            assert(p + q1 =~= pp + q1.skip(m as int));
        }
        let mut slot: Option<Box<TrieNode<K, V>>> = None;
        node.children.set_and_swap(js, &mut slot);
        match slot {
            Some(b) => {
                proof {
                    assert(decreases_to!(n => n.children));
                    assert(decreases_to!(n.children => n.children@));
                    assert(decreases_to!(n.children@ => n.children@[js as int]));
                    assert(decreases_to!(n.children@[js as int] => b));
                }
                let (nb, prev) = insert_at(*b, q, pos + m, kv, Ghost(pp));
                node.children.set(js, Some(Box::new(nb)));
                proof {
                    let ghost bb = *cs0[js as int]->Some_0;
                    let ghost csf = node.children@;
                    assert(csf =~= cs0.update(js as int, Some(Box::new(nb))));
                    // the walk from `n` reaches the same child
                    assert(find(n, q1) == find(bb, q1.skip(kl)));
                    // counts
                    lemma_kv_sum_update(cs0, js as int, csf[js as int], 16);
                    lemma_slot_count_update(cs0, js as int, csf[js as int], 16);
                    assert(kv_count(node) == kv_count(n) + if find(n, q1) is Some {
                        0nat
                    } else {
                        1nat
                    });
                    // well-formedness of the replaced slot, then of the node
                    assert(wf_slot(csf, pp, js as int));
                    assert forall|jj: int| 0 <= jj < 16 implies #[trigger] wf_slot(
                        csf,
                        pp,
                        jj,
                    ) by {
                        if jj != js as int {
                            lemma_wf_slots_index(cs0, pp, 16, jj);
                            assert(csf[jj] == cs0[jj]);
                        }
                    }
                    lemma_wf_slots_build(csf, pp, 16);
                    assert(wf_node(node, p));
                    // the lookup map is updated pointwise at `q1` alone
                    assert forall|s: Seq<u8>| #[trigger] find(node, s) == if s == q1 {
                        Some(kv)
                    } else {
                        find(n, s)
                    } by {
                        let sl = s.len();
                        if sl >= kl && s.take(kl) == n.key@ && sl > kl {
                            let jj = s[kl] as int;
                            if jj == js as int {
                                assert(find(node, s) == find(nb, s.skip(kl)));
                                assert(find(n, s) == find(bb, s.skip(kl)));
                                if s == q1 {
                                    assert(s.skip(kl) == q@.skip((pos + m) as int));
                                } else {
                                    assert(s.skip(kl) != q@.skip((pos + m) as int)) by {
                                        lemma_take_skip_cat(s, kl);
                                        lemma_take_skip_cat(q1, kl);
                                        assert(q1.take(kl) == n.key@);
                                        assert(q1.skip(kl) == q@.skip((pos + m) as int));
                                    }
                                }
                            } else {
                                if 0 <= jj < 16 {
                                    assert(node.children@[jj] == cs0[jj]);
                                }
                            }
                        } else {
                            // the fragment already disagrees, both fail alike
                            assert(s != q1);
                        }
                    }
                }
                (node, prev)
            },
            None => {
                // empty slot: install a fresh leaf holding the pair
                let leaf_key = q.suffix(pos + m);
                let leaf = TrieNode { key: leaf_key, key_value: Some(kv), children: empty_children() };
                proof {
                    lemma_counts_empty(leaf.children@, 16);
                    assert forall|jj: int| 0 <= jj < 16 implies #[trigger] wf_slot(
                        leaf.children@,
                        pp + leaf.key@,
                        jj,
                    ) by {
                        assert(leaf.children@[jj] is None);
                    }
                    lemma_wf_slots_build(leaf.children@, pp + leaf.key@, 16);
                    assert(nibbles_of(kv.key.enc_spec()) == pp + leaf.key@);
                    assert(wf_node(leaf, pp));
                    assert(kv_count(leaf) == 1);
                }
                node.children.set(js, Some(Box::new(leaf)));
                proof {
                    let ghost csf = node.children@;
                    assert(csf =~= cs0.update(js as int, Some(Box::new(leaf))));
                    assert(find(n, q1) is None);
                    lemma_kv_sum_update(cs0, js as int, csf[js as int], 16);
                    lemma_slot_count_update(cs0, js as int, csf[js as int], 16);
                    assert(kv_count(node) == kv_count(n) + 1);
                    assert(leaf.key@.len() > 0);
                    assert(wf_slot(csf, pp, js as int));
                    assert forall|jj: int| 0 <= jj < 16 implies #[trigger] wf_slot(
                        csf,
                        pp,
                        jj,
                    ) by {
                        if jj != js as int {
                            lemma_wf_slots_index(cs0, pp, 16, jj);
                            assert(csf[jj] == cs0[jj]);
                        }
                    }
                    lemma_wf_slots_build(csf, pp, 16);
                    assert(wf_node(node, p));
                    assert forall|s: Seq<u8>| #[trigger] find(node, s) == if s == q1 {
                        Some(kv)
                    } else {
                        find(n, s)
                    } by {
                        let sl = s.len();
                        if sl >= kl && s.take(kl) == n.key@ && sl > kl {
                            let jj = s[kl] as int;
                            if jj == js as int {
                                assert(find(node, s) == find(leaf, s.skip(kl)));
                                lemma_take_skip_cat(s, kl);
                                lemma_take_skip_cat(q1, kl);
                                assert(leaf.key@ == q1.skip(kl));
                                assert(s == s.take(kl) + s.skip(kl));
                                assert(q1 == q1.take(kl) + q1.skip(kl));
                                assert(s.take(kl) == q1.take(kl));
                                if s == q1 {
                                    assert(s.skip(kl) == leaf.key@);
                                    assert(leaf.key@.take(leaf.key@.len() as int) =~= leaf.key@);
                                    assert(find(leaf, leaf.key@) == Some(kv));
                                } else {
                                    assert(s.skip(kl) != leaf.key@);
                                    let s1 = s.skip(kl);
                                    let lkl = leaf.key@.len() as int;
                                    if s1.len() >= lkl && s1.take(lkl) == leaf.key@ {
                                        if s1.len() == lkl {
                                            assert(s1 =~= s1.take(lkl));
                                        }
                                        assert(s1.len() > lkl);
                                        let j2 = s1[lkl] as int;
                                        if 0 <= j2 < 16 {
                                            assert(leaf.children@[j2] is None);
                                        }
                                    }
                                }
                            } else {
                                if 0 <= jj < 16 {
                                    assert(node.children@[jj] == cs0[jj]);
                                }
                            }
                        } else {
                            assert(s != q1);
                        }
                    }
                }
                (node, None)
            },
        }
    } else {
        // the fragment splits at `m`
        proof {
            assert(n.key@.len() > 0);
            assert(m >= 1) by {
                if m == 0 {
                    assert(n.key@[0] != q@[pos as int]);
                }
            }
        }
        let old_tail = node.key.split(m);
        let tail_first: u8 = old_tail.get(0);
        let ghost common = n.key@.take(m as int);
        let TrieNode { key: common_key, key_value: old_kv_field, children: old_children } = node;
        let child_old = TrieNode { key: old_tail, key_value: old_kv_field, children: old_children };
        let mut new_children = empty_children();
        proof {
            assert(tail_first == n.key@[m as int]);
            assert(tail_first < 16);
            lemma_counts_empty(new_children@, 16);
            // the shortened former node is well formed below the common part
            assert(pp =~= (p + common) + old_tail@);
            assert(kv_count(child_old) == kv_count(n));
            assert(wf_node(child_old, p + common));
            assert(child_old.key_value is Some || slot_count(child_old.children@, 16) >= 2);
            // a lookup below `n` is a lookup below the shortened node
            assert(n.key@ == common + child_old.key@) by {
                lemma_take_skip_cat(n.key@, m as int);
            }
        }
        if pos + m == qlen {
            // the new pair lives at the split point itself
            proof {
                assert(q1 =~= common) by {
                    assert(n.key@.take(m as int) == q1.take(m as int));
                    assert(common =~= q1.take(m as int));
                    assert(q1 =~= q1.take(m as int));
                }
            }
            new_children.set(tail_first as usize, Some(Box::new(child_old)));
            let inter = TrieNode { key: common_key, key_value: Some(kv), children: new_children };
            proof {
                let ghost csf = inter.children@;
                let ghost tf = tail_first as int;
                lemma_kv_sum_update(Seq::new(16, |i: int| None::<Box<TrieNode<K, V>>>), tf, csf[tf], 16);
                assert(kv_sum(csf, 16) == kv_count(child_old)) by {
                    lemma_counts_empty(Seq::new(16, |i: int| None::<Box<TrieNode<K, V>>>), 16);
                    assert(csf =~= Seq::new(16, |i: int| None::<Box<TrieNode<K, V>>>).update(tf, csf[tf]));
                }
                lemma_slot_count_update(Seq::new(16, |i: int| None::<Box<TrieNode<K, V>>>), tf, csf[tf], 16);
                assert(kv_count(inter) == kv_count(n) + 1);
                assert(find(n, q1) is None);
                assert(nibbles_of(kv.key.enc_spec()) == p + inter.key@);
                assert(wf_slot(csf, p + common, tf));
                assert forall|jj: int| 0 <= jj < 16 implies #[trigger] wf_slot(
                    csf,
                    p + common,
                    jj,
                ) by {
                    if jj != tf {
                        assert(csf[jj] is None);
                    }
                }
                lemma_wf_slots_build(csf, p + common, 16);
                assert(wf_node(inter, p));
                assert(inter.key@[0] == n.key@[0]);
                assert forall|s: Seq<u8>| #[trigger] find(inter, s) == if s == q1 {
                    Some(kv)
                } else {
                    find(n, s)
                } by {
                    lemma_find_extend_key(child_old, n, common, s);
                    let sl = s.len();
                    if sl >= m && s.take(m as int) == common {
                        if sl == m {
                            assert(s =~= common);
                            assert(inter.key@.take(inter.key@.len() as int) =~= inter.key@);
                            assert(find(inter, s) == Some(kv));
                        } else {
                            let jj = s[m as int] as int;
                            if jj == tf {
                                assert(find(inter, s) == find(child_old, s.skip(m as int)));
                                assert(find(n, s) == find(child_old, s.skip(m as int)));
                                assert(s != q1);
                            } else {
                                assert(find(inter, s) is None) by {
                                    if 0 <= jj < 16 {
                                        assert(csf[jj] is None);
                                    }
                                }
                                assert(find(n, s) is None) by {
                                    if sl >= kl && s.take(kl) == n.key@ {
                                        assert(s.take(kl)[m as int] == s[m as int]);
                                        assert(n.key@[m as int] == tail_first);
                                        assert(false);
                                    }
                                }
                                assert(s != q1);
                            }
                        }
                    } else {
                        assert(find(inter, s) is None);
                        assert(find(n, s) is None) by {
                            if sl >= kl && s.take(kl) == n.key@ {
                                assert(s.take(m as int) =~= common) by {
                                    assert(forall|i: int|
                                        0 <= i < m ==> s.take(m as int)[i] == s.take(kl)[i]);
                                }
                                assert(false);
                            }
                        }
                        assert(s != q1);
                    }
                }
            }
            (inter, None)
        } else {
            // the paths diverge: a fresh branch node with two children
            let j: u8 = q.get(pos + m);
            proof {
                assert(q1[m as int] == q@.skip(pos as int)[m as int]);
                assert(q1[m as int] == q@[pos + m]);
                assert(j < 16);
                assert(n.key@[m as int] != q1[m as int]) by {
                    assert(n.key@.take(m as int) == q1.take(m as int));
                }
                assert(j != tail_first);
            }
            let leaf_key = q.suffix(pos + m);
            let leaf = TrieNode { key: leaf_key, key_value: Some(kv), children: empty_children() };
            proof {
                lemma_counts_empty(leaf.children@, 16);
                lemma_skip_skip(q@, pos as int, m as int);
                assert(leaf.key@ == q1.skip(m as int));
                assert(p + q1 =~= (p + common) + leaf.key@) by {
                    lemma_take_skip_cat(q1, m as int);
                    assert(q1.take(m as int) == common) by {
                        assert(n.key@.take(m as int) == q1.take(m as int));
                        assert(common =~= q1.take(m as int));
                    }
                }
                assert forall|jj: int| 0 <= jj < 16 implies #[trigger] wf_slot(
                    leaf.children@,
                    (p + common) + leaf.key@,
                    jj,
                ) by {
                    assert(leaf.children@[jj] is None);
                }
                lemma_wf_slots_build(leaf.children@, (p + common) + leaf.key@, 16);
                assert(wf_node(leaf, p + common));
                assert(kv_count(leaf) == 1);
            }
            new_children.set(tail_first as usize, Some(Box::new(child_old)));
            new_children.set(j as usize, Some(Box::new(leaf)));
            let inter = TrieNode { key: common_key, key_value: None, children: new_children };
            proof {
                let ghost csf = inter.children@;
                let ghost tf = tail_first as int;
                let ghost jl = j as int;
                let ghost base = Seq::new(16, |i: int| None::<Box<TrieNode<K, V>>>);
                lemma_counts_empty(base, 16);
                assert(csf =~= base.update(tf, csf[tf]).update(jl, csf[jl]));
                lemma_kv_sum_update(base, tf, csf[tf], 16);
                lemma_kv_sum_update(base.update(tf, csf[tf]), jl, csf[jl], 16);
                lemma_slot_count_update(base, tf, csf[tf], 16);
                lemma_slot_count_update(base.update(tf, csf[tf]), jl, csf[jl], 16);
                assert(slot_count(csf, 16) == 2);
                assert(kv_count(inter) == kv_count(n) + 1);
                assert(find(n, q1) is None) by {
                    if q1.len() >= kl && q1.take(kl) == n.key@ {
                        assert(q1.take(kl)[m as int] == q1[m as int]);
                        assert(false);
                    }
                }
                assert(wf_slot(csf, p + common, tf));
                assert(wf_slot(csf, p + common, jl));
                assert forall|jj: int| 0 <= jj < 16 implies #[trigger] wf_slot(
                    csf,
                    p + common,
                    jj,
                ) by {
                    if jj != tf && jj != jl {
                        assert(csf[jj] is None);
                    }
                }
                lemma_wf_slots_build(csf, p + common, 16);
                assert(wf_node(inter, p));
                assert(inter.key@[0] == n.key@[0]);
                assert forall|s: Seq<u8>| #[trigger] find(inter, s) == if s == q1 {
                    Some(kv)
                } else {
                    find(n, s)
                } by {
                    lemma_find_extend_key(child_old, n, common, s);
                    lemma_take_skip_cat(q1, m as int);
                    assert(q1.take(m as int) == common) by {
                        assert(n.key@.take(m as int) == q1.take(m as int));
                        assert(common =~= q1.take(m as int));
                    }
                    let sl = s.len();
                    if sl >= m && s.take(m as int) == common {
                        if sl == m {
                            assert(s =~= common);
                            assert(find(inter, s) is None);
                            assert(find(n, s) is None);
                            assert(s != q1);
                        } else {
                            let jj = s[m as int] as int;
                            lemma_take_skip_cat(s, m as int);
                            if jj == tf {
                                assert(find(inter, s) == find(child_old, s.skip(m as int)));
                                assert(find(n, s) == find(child_old, s.skip(m as int)));
                                assert(s != q1);
                            } else if jj == jl {
                                assert(find(inter, s) == find(leaf, s.skip(m as int)));
                                assert(find(n, s) is None) by {
                                    if sl >= kl && s.take(kl) == n.key@ {
                                        assert(s.take(kl)[m as int] == s[m as int]);
                                        assert(false);
                                    }
                                }
                                let s1 = s.skip(m as int);
                                if s == q1 {
                                    assert(s1 == leaf.key@);
                                    assert(leaf.key@.take(leaf.key@.len() as int) =~= leaf.key@);
                                    assert(find(leaf, leaf.key@) == Some(kv));
                                    assert(find(inter, s) == Some(kv));
                                } else {
                                    assert(s1 != leaf.key@);
                                    let lkl = leaf.key@.len() as int;
                                    if s1.len() >= lkl && s1.take(lkl) == leaf.key@ {
                                        if s1.len() == lkl {
                                            assert(s1 =~= s1.take(lkl));
                                        }
                                        assert(s1.len() > lkl);
                                        let j2 = s1[lkl] as int;
                                        if 0 <= j2 < 16 {
                                            assert(leaf.children@[j2] is None);
                                        }
                                    }
                                }
                            } else {
                                assert(find(inter, s) is None) by {
                                    if 0 <= jj < 16 {
                                        assert(csf[jj] is None);
                                    }
                                }
                                assert(find(n, s) is None) by {
                                    if sl >= kl && s.take(kl) == n.key@ {
                                        assert(s.take(kl)[m as int] == s[m as int]);
                                        assert(n.key@[m as int] == tail_first);
                                        assert(false);
                                    }
                                }
                                assert(s != q1);
                            }
                        }
                    } else {
                        assert(find(inter, s) is None);
                        assert(find(n, s) is None) by {
                            if sl >= kl && s.take(kl) == n.key@ {
                                assert(s.take(m as int) =~= common) by {
                                    assert(forall|i: int|
                                        0 <= i < m ==> s.take(m as int)[i] == s.take(kl)[i]);
                                }
                                assert(false);
                            }
                        }
                        assert(s != q1);
                    }
                }
            }
            (inter, None)
        }
    }
}

/// The occupied-slot count is never negative.
pub proof fn lemma_slot_count_nonneg<K, V>(cs: Seq<Option<Box<TrieNode<K, V>>>>, i: int)
    ensures
        slot_count(cs, i) >= 0,
    decreases i,
{
    if i > 0 {
        lemma_slot_count_nonneg(cs, i - 1);
    }
}

/// An occupied slot makes the count positive.
pub proof fn lemma_slot_count_pos<K, V>(cs: Seq<Option<Box<TrieNode<K, V>>>>, j: int, i: int)
    requires
        0 <= j < i,
        cs[j] is Some,
    ensures
        slot_count(cs, i) >= 1,
    decreases i,
{
    lemma_slot_count_nonneg(cs, i - 1);
    if j < i - 1 {
        lemma_slot_count_pos(cs, j, i - 1);
    }
}

/// A zero count means every slot is empty.
pub proof fn lemma_all_none_from_count<K, V>(cs: Seq<Option<Box<TrieNode<K, V>>>>, i: int)
    requires
        slot_count(cs, i) == 0,
    ensures
        forall|j: int| 0 <= j < i ==> cs[j] is None,
    decreases i,
{
    if i > 0 {
        lemma_slot_count_nonneg(cs, i - 1);
        lemma_all_none_from_count(cs, i - 1);
    }
}

/// A count of one with a known occupied slot makes every other slot empty.
pub proof fn lemma_single_from_count<K, V>(
    cs: Seq<Option<Box<TrieNode<K, V>>>>,
    i: int,
    idx: int,
)
    requires
        slot_count(cs, i) == 1,
        0 <= idx < i,
        cs[idx] is Some,
    ensures
        forall|j: int| 0 <= j < i && j != idx ==> cs[j] is None,
    decreases i,
{
    if idx == i - 1 {
        lemma_slot_count_nonneg(cs, i - 1);
        lemma_all_none_from_count(cs, i - 1);
    } else {
        if cs[i - 1] is Some {
            lemma_slot_count_pos(cs, idx, i - 1);
            lemma_slot_count_nonneg(cs, i - 1);
            assert(false);
        }
        lemma_single_from_count(cs, i - 1, idx);
    }
}

/// Count the occupied child slots.
pub(crate) fn count_children<K: TrieKey, V>(cs: &Vec<Option<Box<TrieNode<K, V>>>>) -> (c: usize)
    requires
        cs@.len() == 16,
    ensures
        c == slot_count(cs@, 16),
        c <= 16,
{
    let mut c: usize = 0;
    let mut i: usize = 0;
    while i < 16
        invariant
            i <= 16,
            cs@.len() == 16,
            c == slot_count(cs@, i as int),
            c <= i,
        decreases 16 - i,
    {
        if cs[i].is_some() {
            c = c + 1;
        }
        i = i + 1;
    }
    c
}

/// The index of the one occupied child slot.
pub(crate) fn single_child_index<K: TrieKey, V>(
    cs: &Vec<Option<Box<TrieNode<K, V>>>>,
) -> (idx: usize)
    requires
        cs@.len() == 16,
        slot_count(cs@, 16) >= 1,
    ensures
        idx < 16,
        cs@[idx as int] is Some,
{
    let mut i: usize = 0;
    while i < 16
        invariant
            i <= 16,
            cs@.len() == 16,
            forall|j: int| 0 <= j < i ==> cs@[j] is None,
        decreases 16 - i,
    {
        if cs[i].is_some() {
            return i;
        }
        i = i + 1;
    }
    proof {
        lemma_counts_empty(cs@, 16);
        assert(false);
    }
    0
}

/// Merge a value-less node that has exactly one child into that child,
/// prefixing the child's fragment with the node's own: the set of stored
/// pairs is unchanged.
pub(crate) fn compact_merge<K: TrieKey, V>(
    node: TrieNode<K, V>,
    Ghost(p): Ghost<Seq<u8>>,
) -> (r: TrieNode<K, V>)
    requires
        wf_node(node, p),
        node.key_value is None,
        node.key@.len() > 0,
        slot_count(node.children@, 16) == 1,
    ensures
        wf_node(r, p),
        r.key@.len() > 0 && r.key@[0] == node.key@[0],
        r.key_value is Some || slot_count(r.children@, 16) >= 2,
        forall|s: Seq<u8>| #[trigger] find(r, s) == find(node, s),
        kv_count(r) == kv_count(node),
{
    let ghost n0 = node;
    let ghost cs0 = node.children@;
    let ghost kl = node.key@.len() as int;
    let ghost pp = p + node.key@;
    let cidx: usize = single_child_index(&node.children);
    proof {
        lemma_wf_slots_index(cs0, pp, 16, cidx as int);
        lemma_single_from_count(cs0, 16, cidx as int);
    }
    let mut node = node;
    let mut slot: Option<Box<TrieNode<K, V>>> = None;
    node.children.set_and_swap(cidx, &mut slot);
    let b = slot.unwrap();
    let ghost child = *b;
    let TrieNode { key: ckey, key_value: ckv, children: ccs } = *b;
    let TrieNode { key: mut pkey, key_value: _, children: _ } = node;
    pkey.join(ckey);
    let merged = TrieNode { key: pkey, key_value: ckv, children: ccs };
    proof {
        let ghost ckl = child.key@.len() as int;
        assert(merged.key@ == n0.key@ + child.key@);
        assert(merged.key_value == child.key_value);
        assert(merged.children@ == child.children@);
        assert((p + merged.key@) =~= pp + child.key@);
        assert(wf_node(merged, p));
        assert(merged.key_value is Some || slot_count(merged.children@, 16) >= 2);
        let ghost base = Seq::new(16, |i: int| None::<Box<TrieNode<K, V>>>);
        lemma_counts_empty(base, 16);
        assert(cs0 =~= base.update(cidx as int, cs0[cidx as int]));
        lemma_kv_sum_update(base, cidx as int, cs0[cidx as int], 16);
        assert(kv_count(merged) == kv_count(n0));
        assert forall|s: Seq<u8>| #[trigger] find(merged, s) == find(n0, s) by {
            lemma_find_extend_key(child, merged, n0.key@, s);
            if is_prefix(n0.key@, s) {
                let s1 = s.skip(kl);
                assert(find(merged, s) == find(child, s1));
                if s.len() == kl {
                    assert(s =~= n0.key@);
                    assert(s1.len() == 0);
                    assert(find(child, s1) is None);
                    assert(find(n0, s) is None);
                } else {
                    let jj = s[kl] as int;
                    if jj == cidx as int {
                        assert(find(n0, s) == find(child, s1));
                    } else {
                        if 0 <= jj < 16 {
                            assert(cs0[jj] is None);
                        }
                        assert(find(n0, s) is None);
                        assert(find(child, s1) is None) by {
                            assert(s1[0] == s[kl]);
                            if s1.len() >= ckl && s1.take(ckl) == child.key@ {
                                assert(s1.take(ckl)[0] == s1[0]);
                                assert(child.key@[0] as int == cidx as int);
                                assert(false);
                            }
                        }
                    }
                }
            } else {
                assert(find(merged, s) is None);
                assert(find(n0, s) is None) by {
                    if s.len() >= kl && s.take(kl) == n0.key@ {
                        assert(is_prefix(n0.key@, s));
                        assert(false);
                    }
                }
            }
        }
    }
    merged
}

/// Remove the pair stored for `k`, whose remaining encoded path is `q` past
/// `pos`, from the subtree rooted at the owned node `n`: yields the
/// compacted subtree (or nothing, if it became empty) and the removed value.
/// The root is never compacted away.
#[verifier::rlimit(100)]
pub(crate) fn remove_at<K: TrieKey, V>(
    n: TrieNode<K, V>,
    q: &NibbleVec,
    pos: usize,
    k: &K,
    root: bool,
    Ghost(p): Ghost<Seq<u8>>,
) -> (res: (Option<TrieNode<K, V>>, Option<V>))
    requires
        wf_node(n, p),
        q.wf(),
        pos <= q@.len(),
        n.key@.len() > 0 ==> pos < q@.len() && q@[pos as int] == n.key@[0],
        n.key@.len() > 0 ==> n.key_value is Some || slot_count(n.children@, 16) >= 2,
        root <==> n.key@.len() == 0,
    ensures
        res.1 == match find(n, q@.skip(pos as int)) {
            Some(kv0) => if k.key_eq_spec(&kv0.key) {
                Some(kv0.value)
            } else {
                None::<V>
            },
            None => None::<V>,
        },
        match res.0 {
            Some(n2) => {
                &&& wf_node(n2, p)
                &&& n.key@.len() > 0 ==> n2.key@.len() > 0 && n2.key@[0] == n.key@[0]
                &&& root ==> n2.key@ == n.key@
                &&& !root ==> n2.key_value is Some || slot_count(n2.children@, 16) >= 2
                &&& forall|s: Seq<u8>| #[trigger] find(n2, s) == if res.1 is Some && s
                    == q@.skip(pos as int) {
                    None::<KeyValue<K, V>>
                } else {
                    find(n, s)
                }
                &&& kv_count(n2) + (if res.1 is Some {
                    1nat
                } else {
                    0nat
                }) == kv_count(n)
            },
            None => {
                &&& !root
                &&& res.1 is Some
                &&& kv_count(n) == 1
                &&& forall|s: Seq<u8>| s != q@.skip(pos as int) ==> find(n, s) is None
            },
        },
    decreases n,
{
    let ghost q1 = q@.skip(pos as int);
    let ghost kl = n.key@.len() as int;
    let ghost pp = p + n.key@;
    let ghost cs0 = n.children@;
    let qlen: usize = q.len();
    let mut node = n;
    let m: usize = node.key.match_count_from(q, pos);
    if m < node.key.len() {
        // the fragment disagrees with the path: nothing stored there
        proof {
            if pos + m < q@.len() && (m as int) < q1.len() {
                assert(q1[m as int] == q@[pos + m]);
                assert(n.key@[m as int] != q1[m as int]);
                if q1.len() >= kl && q1.take(kl) == n.key@ {
                    assert(q1.take(kl)[m as int] == q1[m as int]);
                    assert(false);
                }
            } else {
                assert(q1.len() < kl);
            }
            assert(find(n, q1) is None);
        }
        (Some(node), None)
    } else if pos + m == qlen {
        // the path ends here
        proof {
            assert(n.key@.take(m as int) == q1.take(m as int));
            assert(n.key@ =~= n.key@.take(m as int));
            assert(q1 =~= q1.take(m as int));
            assert(q1 == n.key@);
            assert(find(n, q1) == n.key_value);
        }
        let matched: bool = match &node.key_value {
            Some(kvp) => k.key_eq(&kvp.key),
            None => false,
        };
        if !matched {
            (Some(node), None)
        } else {
            let prior = node.key_value.take();
            let kvp = prior.unwrap();
            let v = kvp.value;
            proof {
                assert forall|s: Seq<u8>| #[trigger] find(node, s) == if s == q1 {
                    None::<KeyValue<K, V>>
                } else {
                    find(n, s)
                } by {
                    if s == q1 {
                        assert(find(node, s) is None);
                    } else {
                        let sl = s.len();
                        if sl >= kl && s.take(kl) == n.key@ {
                            if sl == kl {
                                assert(s =~= n.key@);
                            } else {
                                let jj = s[kl] as int;
                                if 0 <= jj < 16 {
                                    assert(node.children@[jj] == cs0[jj]);
                                }
                            }
                        }
                    }
                }
                assert(wf_node(node, p));
            }
            if root {
                (Some(node), Some(v))
            } else {
                let cc = count_children(&node.children);
                if cc == 0 {
                    proof {
                        lemma_all_none_from_count(cs0, 16);
                        lemma_counts_empty(cs0, 16);
                        assert(kv_count(n) == 1);
                        assert forall|s: Seq<u8>| s != q1 implies find(n, s) is None by {
                            let sl = s.len();
                            if sl >= kl && s.take(kl) == n.key@ {
                                if sl == kl {
                                    assert(s =~= n.key@);
                                } else {
                                    let jj = s[kl] as int;
                                    if 0 <= jj < 16 {
                                        assert(cs0[jj] is None);
                                    }
                                }
                            }
                        }
                    }
                    (None, Some(v))
                } else if cc == 1 {
                    let merged = compact_merge(node, Ghost(p));
                    (Some(merged), Some(v))
                } else {
                    (Some(node), Some(v))
                }
            }
        }
    } else {
        // descend along the next nibble
        proof {
            assert(n.key@.take(m as int) == q1.take(m as int));
            assert(n.key@ =~= n.key@.take(m as int));
            assert(q1.take(kl) == n.key@);
        }
        let j: u8 = q.get(pos + m);
        let js: usize = j as usize;
        proof {
            assert(q1[kl] == q@.skip(pos as int)[kl]);
            assert(q@.skip(pos as int)[kl] == q@[pos + kl]);
            assert(j < 16);
            lemma_wf_slots_index(cs0, pp, 16, js as int);
            lemma_skip_skip(q@, pos as int, m as int);
            lemma_take_skip_cat(q1, m as int);
        }
        if node.children[js].is_none() {
            proof {
                assert(find(n, q1) is None);
            }
            (Some(node), None)
        } else {
            let mut slot: Option<Box<TrieNode<K, V>>> = None;
            node.children.set_and_swap(js, &mut slot);
            let b = slot.unwrap();
            proof {
                assert(decreases_to!(n => n.children));
                assert(decreases_to!(n.children => n.children@));
                assert(decreases_to!(n.children@ => n.children@[js as int]));
                assert(decreases_to!(n.children@[js as int] => b));
            }
            let ghost bb = *cs0[js as int]->Some_0;
            let (rchild, rv) = remove_at(*b, q, pos + m, k, false, Ghost(pp));
            let ghost q2 = q@.skip((pos + m) as int);
            proof {
                assert(find(n, q1) == find(bb, q2)) by {
                    assert(q1.skip(kl) == q2);
                }
            }
            let vanished: bool = rchild.is_none();
            match rchild {
                Some(nc) => {
                    node.children.set(js, Some(Box::new(nc)));
                    proof {
                        let ghost csf = node.children@;
                        assert(csf =~= cs0.update(js as int, Some(Box::new(nc))));
                        lemma_kv_sum_update(cs0, js as int, csf[js as int], 16);
                        lemma_slot_count_update(cs0, js as int, csf[js as int], 16);
                        assert(wf_slot(csf, pp, js as int));
                        assert forall|jj: int| 0 <= jj < 16 implies #[trigger] wf_slot(
                            csf,
                            pp,
                            jj,
                        ) by {
                            if jj != js as int {
                                lemma_wf_slots_index(cs0, pp, 16, jj);
                                assert(csf[jj] == cs0[jj]);
                            }
                        }
                        lemma_wf_slots_build(csf, pp, 16);
                        assert(wf_node(node, p));
                        assert forall|s: Seq<u8>| #[trigger] find(node, s) == if rv is Some && s
                            == q1 {
                            None::<KeyValue<K, V>>
                        } else {
                            find(n, s)
                        } by {
                            let sl = s.len();
                            if sl >= kl && s.take(kl) == n.key@ && sl > kl {
                                let jj = s[kl] as int;
                                if jj == js as int {
                                    assert(find(node, s) == find(nc, s.skip(kl)));
                                    assert(find(n, s) == find(bb, s.skip(kl)));
                                    lemma_take_skip_cat(s, kl);
                                    assert(s == s.take(kl) + s.skip(kl));
                                    assert(q1 == q1.take(kl) + q1.skip(kl));
                                    assert(s.take(kl) == q1.take(kl));
                                    if s == q1 {
                                        assert(s.skip(kl) == q2);
                                    } else {
                                        assert(s.skip(kl) != q2);
                                    }
                                } else {
                                    if 0 <= jj < 16 {
                                        assert(node.children@[jj] == cs0[jj]);
                                    }
                                    assert(s != q1);
                                }
                            } else {
                                if sl == kl && sl >= kl && s.take(kl) == n.key@ {
                                    assert(s =~= n.key@);
                                    assert(find(node, s) == node.key_value);
                                    assert(find(n, s) == n.key_value);
                                }
                                assert(s != q1);
                            }
                        }
                    }
                    (Some(node), rv)
                },
                None => {
                    node.children.set(js, None);
                    proof {
                        let ghost csf = node.children@;
                        assert(csf =~= cs0.update(js as int, None));
                        lemma_kv_sum_update(cs0, js as int, None, 16);
                        lemma_slot_count_update(cs0, js as int, None, 16);
                        assert(kv_count(node) + 1 == kv_count(n));
                        assert(wf_slot(csf, pp, js as int));
                        assert forall|jj: int| 0 <= jj < 16 implies #[trigger] wf_slot(
                            csf,
                            pp,
                            jj,
                        ) by {
                            if jj != js as int {
                                lemma_wf_slots_index(cs0, pp, 16, jj);
                                assert(csf[jj] == cs0[jj]);
                            }
                        }
                        lemma_wf_slots_build(csf, pp, 16);
                        assert(wf_node(node, p));
                        assert forall|s: Seq<u8>| #[trigger] find(node, s) == if rv is Some && s
                            == q1 {
                            None::<KeyValue<K, V>>
                        } else {
                            find(n, s)
                        } by {
                            let sl = s.len();
                            if sl >= kl && s.take(kl) == n.key@ && sl > kl {
                                let jj = s[kl] as int;
                                if jj == js as int {
                                    assert(find(node, s) is None);
                                    assert(find(n, s) == find(bb, s.skip(kl)));
                                    lemma_take_skip_cat(s, kl);
                                    assert(s == s.take(kl) + s.skip(kl));
                                    assert(q1 == q1.take(kl) + q1.skip(kl));
                                    assert(s.take(kl) == q1.take(kl));
                                    if s == q1 {
                                    } else {
                                        assert(s.skip(kl) != q2);
                                        assert(find(bb, s.skip(kl)) is None);
                                    }
                                } else {
                                    if 0 <= jj < 16 {
                                        assert(node.children@[jj] == cs0[jj]);
                                    }
                                    assert(s != q1);
                                }
                            } else {
                                if sl == kl && s.take(kl) == n.key@ {
                                    assert(s =~= n.key@);
                                    assert(find(node, s) == node.key_value);
                                    assert(find(n, s) == n.key_value);
                                }
                                assert(s != q1);
                            }
                        }
                    }
                    // the vacated slot may leave a lone child to merge into
                    if !root && node.key_value.is_none() {
                        let cc = count_children(&node.children);
                        if cc == 1 {
                            let merged = compact_merge(node, Ghost(p));
                            (Some(merged), rv)
                        } else {
                            proof {
                                lemma_slot_count_nonneg(node.children@, 16);
                                assert(slot_count(cs0, 16) >= 2);
                                assert(slot_count(node.children@, 16) >= 1);
                                assert(cc >= 2);
                            }
                            (Some(node), rv)
                        }
                    } else {
                        (Some(node), rv)
                    }
                },
            }
        }
    }
}

/// The deepest value-bearing ancestor on the path `q` below `n`: its
/// relative nibble path (starting with `n`'s fragment) and its pair.
pub open spec fn anc<K, V>(n: TrieNode<K, V>, q: Seq<u8>) -> Option<(Seq<u8>, KeyValue<K, V>)>
    decreases n,
    via anc_dec::<K, V>
{
    let kl = n.key@.len() as int;
    if q.len() < kl || q.take(kl) != n.key@ {
        None
    } else {
        let deeper = if q.len() > kl {
            let j = q[kl] as int;
            if 0 <= j < n.children@.len() {
                match n.children@[j] {
                    Some(c) => match anc(*c, q.skip(kl)) {
                        Some(a) => Some((n.key@ + a.0, a.1)),
                        None => None,
                    },
                    None => None,
                }
            } else {
                None
            }
        } else {
            None
        };
        if deeper is Some {
            deeper
        } else {
            match n.key_value {
                Some(kv) => Some((n.key@, kv)),
                None => None,
            }
        }
    }
}

#[via_fn]
proof fn anc_dec<K, V>(n: TrieNode<K, V>, q: Seq<u8>) {
    let kl = n.key@.len() as int;
    if q.len() > kl && q.take(kl) == n.key@ {
        let j = q[kl] as int;
        if 0 <= j < n.children@.len() {
            if n.children@[j] is Some {
                let b = n.children@[j]->Some_0;
                assert(decreases_to!(n => n.children));
                assert(decreases_to!(n.children => n.children@));
                assert(decreases_to!(n.children@ => n.children@[j]));
                assert(decreases_to!(n.children@[j] => b));
                assert(decreases_to!(n => *b));
            }
        }
    }
}

/// Walk from `n` along the nibbles of `q` past `pos`, carrying the deepest
/// value-bearing node seen; yield that node and the path position at its
/// end, if any was seen.
pub(crate) fn get_ancestor_at<'a, K: TrieKey, V>(
    n: &'a TrieNode<K, V>,
    q: &NibbleVec,
    pos: usize,
    Ghost(p): Ghost<Seq<u8>>,
) -> (r: Option<(&'a TrieNode<K, V>, usize)>)
    requires
        wf_node(*n, p),
        q.wf(),
        pos <= q@.len(),
    ensures
        match r {
            Some(pr) => {
                &&& pos <= pr.1 <= q@.len()
                &&& match pr.0.key_value {
                    Some(kv) => anc(*n, q@.skip(pos as int)) == Some(
                        (q@.subrange(pos as int, pr.1 as int), kv),
                    ),
                    None => false,
                }
            },
            None => anc(*n, q@.skip(pos as int)) is None,
        },
    decreases *n,
{
    let ghost q1 = q@.skip(pos as int);
    let ghost kl = n.key@.len() as int;
    let qlen: usize = q.len();
    let m: usize = n.key.match_count_from(q, pos);
    if m < n.key.len() {
        proof {
            if pos + m < q@.len() && (m as int) < q1.len() {
                assert(q1[m as int] == q@[pos + m]);
                assert(n.key@[m as int] != q1[m as int]);
                if q1.len() >= kl && q1.take(kl) == n.key@ {
                    assert(q1.take(kl)[m as int] == q1[m as int]);
                    assert(false);
                }
            } else {
                assert(q1.len() < kl);
            }
        }
        None
    } else {
        proof {
            assert(n.key@.take(m as int) == q1.take(m as int));
            assert(n.key@ =~= n.key@.take(m as int));
            assert(q1.take(kl) == n.key@);
            assert(n.key@ == q@.subrange(pos as int, (pos + m) as int)) by {
                assert(q1.take(kl) =~= q@.subrange(pos as int, (pos + m) as int));
            }
        }
        let deeper: Option<(&'a TrieNode<K, V>, usize)> = if pos + m < qlen {
            let j: u8 = q.get(pos + m);
            proof {
                assert(q1[kl] == q@.skip(pos as int)[kl]);
                assert(q@.skip(pos as int)[kl] == q@[pos + kl]);
                assert(j < 16);
                lemma_wf_slots_index(n.children@, p + n.key@, 16, j as int);
                lemma_skip_skip(q@, pos as int, m as int);
            }
            match &n.children[j as usize] {
                Some(b) => {
                    proof {
                        assert(decreases_to!(*n => n.children));
                        assert(decreases_to!(n.children => n.children@));
                        assert(decreases_to!(n.children@ => n.children@[j as int]));
                    }
                    get_ancestor_at(&**b, q, pos + m, Ghost(p + n.key@))
                },
                None => None,
            }
        } else {
            None
        };
        proof {
            if q1.len() == kl {
                assert(q1 =~= n.key@);
            }
        }
        match deeper {
            Some(pr) => {
                proof {
                    assert(q@.subrange(pos as int, (pos + m) as int) + q@.subrange(
                        (pos + m) as int,
                        pr.1 as int,
                    ) =~= q@.subrange(pos as int, pr.1 as int));
                }
                Some(pr)
            },
            None => {
                match &n.key_value {
                    Some(_) => Some((n, pos + m)),
                    None => None,
                }
            },
        }
    }
}

/// Apply `f` to the value stored at the path `q` past `pos`, which must be
/// occupied, leaving the structure and the stored key untouched; the ghost
/// result names the new value.
#[verifier::rlimit(60)]
pub(crate) fn update_value_at<K: TrieKey, V, F: FnOnce(V) -> V>(
    n: TrieNode<K, V>,
    q: &NibbleVec,
    pos: usize,
    f: F,
    Ghost(p): Ghost<Seq<u8>>,
) -> (r: (TrieNode<K, V>, Ghost<V>))
    requires
        wf_node(n, p),
        q.wf(),
        pos <= q@.len(),
        find(n, q@.skip(pos as int)) is Some,
        call_requires(f, (find(n, q@.skip(pos as int))->Some_0.value,)),
        n.key@.len() > 0 ==> pos < q@.len() && q@[pos as int] == n.key@[0],
    ensures
        wf_node(r.0, p),
        r.0.key@ == n.key@,
        r.0.key_value is Some <==> n.key_value is Some,
        slot_count(r.0.children@, 16) == slot_count(n.children@, 16),
        kv_count(r.0) == kv_count(n),
        call_ensures(f, (find(n, q@.skip(pos as int))->Some_0.value,), r.1@),
        forall|s: Seq<u8>| #[trigger] find(r.0, s) == if s == q@.skip(pos as int) {
            Some(
                (KeyValue {
                    key: find(n, q@.skip(pos as int))->Some_0.key,
                    value: r.1@,
                }),
            )
        } else {
            find(n, s)
        },
    decreases n,
{
    let ghost q1 = q@.skip(pos as int);
    let ghost kl = n.key@.len() as int;
    let ghost pp = p + n.key@;
    let ghost cs0 = n.children@;
    let qlen: usize = q.len();
    let mut node = n;
    let m: usize = node.key.match_count_from(q, pos);
    proof {
        // the path is occupied, so the fragment is fully consumed
        if m < n.key@.len() {
            if pos + m < q@.len() && (m as int) < q1.len() {
                assert(q1[m as int] == q@[pos + m]);
                assert(n.key@[m as int] != q1[m as int]);
                if q1.len() >= kl && q1.take(kl) == n.key@ {
                    assert(q1.take(kl)[m as int] == q1[m as int]);
                    assert(false);
                }
            } else {
                assert(q1.len() < kl);
            }
            assert(find(n, q1) is None);
            assert(false);
        }
        assert(n.key@.take(m as int) == q1.take(m as int));
        assert(n.key@ =~= n.key@.take(m as int));
        assert(q1.take(kl) == n.key@);
    }
    if pos + m == qlen {
        proof {
            assert(q1 =~= q1.take(m as int));
            assert(q1 == n.key@);
            assert(find(n, q1) == n.key_value);
        }
        let prior = node.key_value.take();
        let kvp = prior.unwrap();
        let KeyValue { key: k0, value: v0 } = kvp;
        let nv = f(v0);
        let ghost nvg = nv;
        node.key_value = Some(KeyValue { key: k0, value: nv });
        proof {
            assert(wf_node(node, p));
            assert forall|s: Seq<u8>| #[trigger] find(node, s) == if s == q1 {
                Some((KeyValue { key: find(n, q1)->Some_0.key, value: nvg }))
            } else {
                find(n, s)
            } by {
                if s == q1 {
                    assert(find(node, s) == node.key_value);
                } else {
                    let sl = s.len();
                    if sl >= kl && s.take(kl) == n.key@ {
                        if sl == kl {
                            assert(s =~= n.key@);
                        } else {
                            let jj = s[kl] as int;
                            if 0 <= jj < 16 {
                                assert(node.children@[jj] == cs0[jj]);
                            }
                        }
                    }
                }
            }
        }
        (node, Ghost(nvg))
    } else {
        let j: u8 = q.get(pos + m);
        let js: usize = j as usize;
        proof {
            assert(q1[kl] == q@.skip(pos as int)[kl]);
            assert(q@.skip(pos as int)[kl] == q@[pos + kl]);
            assert(j < 16);
            lemma_wf_slots_index(cs0, pp, 16, js as int);
            lemma_skip_skip(q@, pos as int, m as int);
            lemma_take_skip_cat(q1, m as int);
            assert(find(n, q1) == match cs0[js as int] {
                Some(c) => find(*c, q1.skip(kl)),
                None => None::<KeyValue<K, V>>,
            });
        }
        let mut slot: Option<Box<TrieNode<K, V>>> = None;
        node.children.set_and_swap(js, &mut slot);
        let b = slot.unwrap();
        proof {
            assert(decreases_to!(n => n.children));
            assert(decreases_to!(n.children => n.children@));
            assert(decreases_to!(n.children@ => n.children@[js as int]));
            assert(decreases_to!(n.children@[js as int] => b));
        }
        let ghost bb = *cs0[js as int]->Some_0;
        let (nc, gnv) = update_value_at(*b, q, pos + m, f, Ghost(pp));
        node.children.set(js, Some(Box::new(nc)));
        proof {
            let ghost q2 = q@.skip((pos + m) as int);
            let ghost csf = node.children@;
            assert(csf =~= cs0.update(js as int, Some(Box::new(nc))));
            lemma_kv_sum_update(cs0, js as int, csf[js as int], 16);
            lemma_slot_count_update(cs0, js as int, csf[js as int], 16);
            assert(wf_slot(csf, pp, js as int));
            assert forall|jj: int| 0 <= jj < 16 implies #[trigger] wf_slot(csf, pp, jj) by {
                if jj != js as int {
                    lemma_wf_slots_index(cs0, pp, 16, jj);
                    assert(csf[jj] == cs0[jj]);
                }
            }
            lemma_wf_slots_build(csf, pp, 16);
            assert(wf_node(node, p));
            assert(find(n, q1) == find(bb, q2));
            assert forall|s: Seq<u8>| #[trigger] find(node, s) == if s == q1 {
                Some((KeyValue { key: find(n, q1)->Some_0.key, value: gnv@ }))
            } else {
                find(n, s)
            } by {
                let sl = s.len();
                if sl >= kl && s.take(kl) == n.key@ && sl > kl {
                    let jj = s[kl] as int;
                    if jj == js as int {
                        assert(find(node, s) == find(nc, s.skip(kl)));
                        assert(find(n, s) == find(bb, s.skip(kl)));
                        lemma_take_skip_cat(s, kl);
                        assert(s == s.take(kl) + s.skip(kl));
                        assert(q1 == q1.take(kl) + q1.skip(kl));
                        assert(s.take(kl) == q1.take(kl));
                        if s == q1 {
                            assert(s.skip(kl) == q2);
                        } else {
                            assert(s.skip(kl) != q2);
                        }
                    } else {
                        if 0 <= jj < 16 {
                            assert(node.children@[jj] == cs0[jj]);
                        }
                        assert(s != q1);
                    }
                } else {
                    if sl == kl && s.take(kl) == n.key@ {
                        assert(s =~= n.key@);
                        assert(find(node, s) == node.key_value);
                        assert(find(n, s) == n.key_value);
                    }
                    assert(s != q1);
                }
            }
        }
        (node, gnv)
    }
}

/// The node whose whole path below `n` equals `q`, if any.
pub open spec fn node_at<K, V>(n: TrieNode<K, V>, q: Seq<u8>) -> Option<TrieNode<K, V>>
    decreases n,
    via node_at_dec::<K, V>
{
    let kl = n.key@.len() as int;
    if q.len() < kl || q.take(kl) != n.key@ {
        None
    } else if q.len() == kl {
        Some(n)
    } else {
        let j = q[kl] as int;
        if 0 <= j < n.children@.len() {
            match n.children@[j] {
                Some(c) => node_at(*c, q.skip(kl)),
                None => None,
            }
        } else {
            None
        }
    }
}

#[via_fn]
proof fn node_at_dec<K, V>(n: TrieNode<K, V>, q: Seq<u8>) {
    let kl = n.key@.len() as int;
    if q.len() > kl && q.take(kl) == n.key@ {
        let j = q[kl] as int;
        if 0 <= j < n.children@.len() {
            if n.children@[j] is Some {
                let b = n.children@[j]->Some_0;
                assert(decreases_to!(n => n.children));
                assert(decreases_to!(n.children => n.children@));
                assert(decreases_to!(n.children@ => n.children@[j]));
                assert(decreases_to!(n.children@[j] => b));
                assert(decreases_to!(n => *b));
            }
        }
    }
}

/// The pair found along `q` is the pair of the node that ends there.
pub proof fn lemma_node_at_find<K, V>(n: TrieNode<K, V>, q: Seq<u8>)
    ensures
        find(n, q) == match node_at(n, q) {
            Some(m) => m.key_value,
            None => None::<KeyValue<K, V>>,
        },
    decreases n,
{
    let kl = n.key@.len() as int;
    if q.len() >= kl && q.take(kl) == n.key@ && q.len() > kl {
        let j = q[kl] as int;
        if 0 <= j < n.children@.len() {
            match n.children@[j] {
                Some(c) => {
                    lemma_node_at_find(*c, q.skip(kl));
                },
                None => {},
            }
        }
    }
}

/// Walk from `n` along the nibbles of `q` past `pos` and yield the node at
/// the end of the walk, if the path ends exactly on a node boundary.
pub(crate) fn get_node_at<'a, K: TrieKey, V>(
    n: &'a TrieNode<K, V>,
    q: &NibbleVec,
    pos: usize,
    Ghost(p): Ghost<Seq<u8>>,
) -> (r: Option<&'a TrieNode<K, V>>)
    requires
        wf_node(*n, p),
        q.wf(),
        pos <= q@.len(),
    ensures
        match r {
            Some(nd) => node_at(*n, q@.skip(pos as int)) == Some(*nd),
            None => node_at(*n, q@.skip(pos as int)) is None,
        },
    decreases *n,
{
    let ghost q1 = q@.skip(pos as int);
    let ghost kl = n.key@.len() as int;
    let qlen: usize = q.len();
    let m: usize = n.key.match_count_from(q, pos);
    if m < n.key.len() {
        proof {
            if pos + m < q@.len() && (m as int) < q1.len() {
                assert(q1[m as int] == q@[pos + m]);
                assert(n.key@[m as int] != q1[m as int]);
                if q1.len() >= kl && q1.take(kl) == n.key@ {
                    assert(q1.take(kl)[m as int] == q1[m as int]);
                    assert(false);
                }
            } else {
                assert(q1.len() < kl);
            }
        }
        None
    } else if pos + m == qlen {
        proof {
            assert(n.key@.take(m as int) == q1.take(m as int));
            assert(n.key@ =~= n.key@.take(m as int));
            assert(q1 =~= q1.take(m as int));
        }
        Some(n)
    } else {
        let j: u8 = q.get(pos + m);
        proof {
            assert(n.key@.take(m as int) == q1.take(m as int));
            assert(n.key@ =~= n.key@.take(m as int));
            assert(q1.take(kl) =~= n.key@);
            assert(q1[kl] == q@.skip(pos as int)[kl]);
            assert(q@.skip(pos as int)[kl] == q@[pos + kl]);
            assert(j < 16);
        }
        let js = j as usize;
        match &n.children[js] {
            Some(b) => {
                proof {
                    lemma_wf_slots_index(n.children@, p + n.key@, 16, js as int);
                    assert(decreases_to!(*n => n.children));
                    assert(decreases_to!(n.children => n.children@));
                    assert(decreases_to!(n.children@ => n.children@[js as int]));
                    assert(q@.skip(pos as int).skip(kl) =~= q@.skip((pos + m) as int));
                }
                get_node_at(&**b, q, pos + m, Ghost(p + n.key@))
            },
            None => {
                None
            },
        }
    }
}

/// Recursively verify the structural invariants below `n`, whose path from
/// the root is `path`, and count the value-bearing nodes: slot indices match
/// first nibbles, value-less non-root nodes branch at least twice, stored
/// keys encode to their paths.
#[verifier::rlimit(100)]
#[verifier::loop_isolation(false)]
pub(crate) fn check_node<K: TrieKey, V>(n: &TrieNode<K, V>, path: &NibbleVec) -> (r: (bool, usize))
    ensures
        r.0 ==> wf_node(*n, path@) && r.1 == kv_count(*n),
        wf_node(*n, path@) && kv_count(*n) <= usize::MAX ==> r.0,
    decreases *n,
{
    let ghost pv = path@;
    let ghost pp = pv + n.key@;
    if !n.key.is_nibbles() {
        return (false, 0);
    }
    if n.children.len() != 16 {
        return (false, 0);
    }
    let mut total: usize = 0;
    match &n.key_value {
        Some(kvp) => {
            let enc = kvp.key.encode();
            let env = NibbleVec::from_bytes(&enc);
            let mut cp = path.duplicate();
            cp.join(n.key.duplicate());
            if !env.eq_vec(&cp) {
                return (false, 0);
            }
            total = 1;
        },
        None => {},
    }
    let ghost selfbit: nat = if n.key_value is Some {
        1nat
    } else {
        0nat
    };
    let mut childpath = path.duplicate();
    childpath.join(n.key.duplicate());
    let mut ok: bool = true;
    let mut j: usize = 0;
    while j < 16
        invariant
            j <= 16,
            n.children@.len() == 16,
            childpath@ == pp,
            n.key.wf(),
            selfbit == (if n.key_value is Some {
                1nat
            } else {
                0nat
            }),
            match n.key_value {
                Some(kv) => nibbles_of(kv.key.enc_spec()) == pv + n.key@,
                None => true,
            },
            ok ==> wf_slots(n.children@, pp, j as int) && total == selfbit + kv_sum(
                n.children@,
                j as int,
            ),
            wf_node(*n, pv) && kv_count(*n) <= usize::MAX ==> ok,
        decreases 16 - j,
    {
        proof {
            if wf_node(*n, pv) && kv_count(*n) <= usize::MAX {
                lemma_wf_slots_index(n.children@, pp, 16, j as int);
            }
        }
        match &n.children[j] {
            Some(c) => {
                proof {
                    assert(decreases_to!(*n => n.children));
                    assert(decreases_to!(n.children => n.children@));
                    assert(decreases_to!(n.children@ => n.children@[j as int]));
                }
                let mut this_ok: bool = true;
                if c.key.len() == 0 {
                    this_ok = false;
                } else if c.key.get(0) as usize != j {
                    this_ok = false;
                } else if c.children.len() != 16 {
                    this_ok = false;
                } else {
                    if c.key_value.is_none() && count_children(&c.children) < 2 {
                        this_ok = false;
                    }
                }
                let (cok, ccount) = check_node(&**c, &childpath);
                proof {
                    if wf_node(*n, pv) && kv_count(*n) <= usize::MAX {
                        // the child's own count is within the total
                        lemma_kv_sum_slot(n.children@, j as int, 16);
                        lemma_kv_sum_monotonic(n.children@, j as int, 16);
                        assert(kv_count(**c) <= kv_count(*n));
                    }
                }
                if !this_ok || !cok {
                    ok = false;
                } else {
                    if ccount > usize::MAX - total {
                        ok = false;
                    } else {
                        proof {
                            if ok {
                                assert(wf_slot(n.children@, pp, j as int));
                                assert(wf_slots(n.children@, pp, j as int + 1));
                                assert(kv_sum(n.children@, j as int + 1) == kv_sum(
                                    n.children@,
                                    j as int,
                                ) + kv_count(**c));
                            }
                        }
                        total = total + ccount;
                    }
                }
            },
            None => {
                proof {
                    if ok {
                        assert(wf_slot(n.children@, pp, j as int));
                        assert(wf_slots(n.children@, pp, j as int + 1));
                        assert(kv_sum(n.children@, j as int + 1) == kv_sum(n.children@, j as int));
                    }
                }
            },
        }
        proof {
            if wf_node(*n, pv) && kv_count(*n) <= usize::MAX {
                lemma_kv_sum_monotonic(n.children@, j + 1, 16);
                if n.children@[j as int] is Some {
                    lemma_kv_sum_slot(n.children@, j as int, 16);
                }
            }
        }
        j = j + 1;
    }
    (ok, total)
}

/// The stored pairs below `n` in pre-order: the node's own pair first, then
/// the children in ascending slot order.
pub open spec fn entries_seq<K, V>(n: TrieNode<K, V>) -> Seq<(K, V)>
    decreases n, 1int,
    via entries_seq_dec::<K, V>
{
    (match n.key_value {
        Some(kv) => seq![(kv.key, kv.value)],
        None => Seq::empty(),
    }) + entries_children(n.children@, 16)
}

#[via_fn]
proof fn entries_seq_dec<K, V>(n: TrieNode<K, V>) {
    assert(decreases_to!(n => n.children));
    assert(decreases_to!(n.children => n.children@));
    assert(decreases_to!(n, 1int => n.children@, 16int));
}

/// The stored pairs in the subtrees of the first `i` slots, slot by slot.
pub open spec fn entries_children<K, V>(cs: Seq<Option<Box<TrieNode<K, V>>>>, i: int) -> Seq<
    (K, V),
>
    decreases cs, i,
    via entries_children_dec::<K, V>
{
    if i <= 0 || i > cs.len() {
        Seq::empty()
    } else {
        entries_children(cs, i - 1) + match cs[i - 1] {
            Some(c) => entries_seq(*c),
            None => Seq::empty(),
        }
    }
}

#[via_fn]
proof fn entries_children_dec<K, V>(cs: Seq<Option<Box<TrieNode<K, V>>>>, i: int) {
    if 0 < i <= cs.len() {
        if cs[i - 1] is Some {
            let b = cs[i - 1]->Some_0;
            assert(decreases_to!(cs => cs[i - 1]));
            assert(decreases_to!(cs[i - 1] => b));
            assert(decreases_to!(cs, i => *b, 1int));
        }
    }
}

/// There are as many listed pairs as counted ones.
pub proof fn lemma_entries_len<K, V>(n: TrieNode<K, V>)
    ensures
        entries_seq(n).len() == kv_count(n),
    decreases n, 1int,
{
    lemma_entries_children_len(n.children@, 16);
}

/// Slot-range version of the length agreement.
pub proof fn lemma_entries_children_len<K, V>(cs: Seq<Option<Box<TrieNode<K, V>>>>, i: int)
    ensures
        entries_children(cs, i).len() == kv_sum(cs, i),
    decreases cs, i,
{
    if 0 < i <= cs.len() {
        lemma_entries_children_len(cs, i - 1);
        match cs[i - 1] {
            Some(c) => {
                lemma_entries_len(*c);
            },
            None => {},
        }
    }
}

/// Collect the stored pairs below `n` in pre-order onto the end of `out`.
#[verifier::loop_isolation(false)]
pub(crate) fn collect_pairs<'a, K: TrieKey, V>(
    n: &'a TrieNode<K, V>,
    out: &mut Vec<(&'a K, &'a V)>,
    Ghost(p): Ghost<Seq<u8>>,
)
    requires
        wf_node(*n, p),
    ensures
        final(out)@.len() == old(out)@.len() + entries_seq(*n).len(),
        forall|i: int| 0 <= i < old(out)@.len() ==> final(out)@[i] == old(out)@[i],
        forall|i: int| 0 <= i < entries_seq(*n).len() ==> (*final(out)@[old(out)@.len() + i].0,
            *final(out)@[old(out)@.len() + i].1) == entries_seq(*n)[i],
    decreases *n,
{
    let ghost base = out@.len() as int;
    let ghost es = entries_seq(*n);
    let ghost pp = p + n.key@;
    match &n.key_value {
        Some(kvp) => {
            out.push((&kvp.key, &kvp.value));
        },
        None => {},
    }
    let mut j: usize = 0;
    while j < 16
        invariant
            j <= 16,
            out@.len() == base + (match n.key_value {
                Some(kv) => 1int,
                None => 0int,
            }) + entries_children(n.children@, j as int).len(),
            forall|i: int| 0 <= i < base ==> out@[i] == old(out)@[i],
            forall|i: int| base <= i < out@.len() ==> (*out@[i].0, *out@[i].1)
                == ((match n.key_value {
                Some(kv) => seq![(kv.key, kv.value)],
                None => Seq::<(K, V)>::empty(),
            }) + entries_children(n.children@, j as int))[i - base],
        decreases 16 - j,
    {
        match &n.children[j] {
            Some(c) => {
                proof {
                    lemma_wf_slots_index(n.children@, pp, 16, j as int);
                    assert(decreases_to!(*n => n.children));
                    assert(decreases_to!(n.children => n.children@));
                    assert(decreases_to!(n.children@ => n.children@[j as int]));
                }
                collect_pairs(&**c, out, Ghost(pp));
            },
            None => {},
        }
        j = j + 1;
    }
    proof {
        assert(es == (match n.key_value {
            Some(kv) => seq![(kv.key, kv.value)],
            None => Seq::<(K, V)>::empty(),
        }) + entries_children(n.children@, 16));
    }
}

/// Ancestor semantics: the ancestor lookup yields a value-bearing prefix of
/// the query and no strictly longer prefix bears a value; when it yields
/// nothing, no prefix bears a value.
pub proof fn lemma_anc_properties<K: TrieKey, V>(n: TrieNode<K, V>, q: Seq<u8>, p: Seq<u8>)
    requires
        wf_node(n, p),
    ensures
        match anc(n, q) {
            Some(a) => {
                &&& is_prefix(a.0, q)
                &&& find(n, a.0) == Some(a.1)
                &&& forall|t: Seq<u8>| is_prefix(t, q) && t.len() > a.0.len() ==> find(n, t)
                    is None
            },
            None => forall|t: Seq<u8>| is_prefix(t, q) ==> find(n, t) is None,
        },
    decreases n,
{
    let kl = n.key@.len() as int;
    let pp = p + n.key@;
    if q.len() < kl || q.take(kl) != n.key@ {
        assert forall|t: Seq<u8>| is_prefix(t, q) implies find(n, t) is None by {
            if t.len() >= kl && t.take(kl) == n.key@ {
                assert(t.take(kl) =~= q.take(kl)) by {
                    assert(forall|i: int| 0 <= i < kl ==> t.take(kl)[i] == q.take(t.len() as int)[i]);
                }
                assert(false);
            }
        }
    } else if q.len() == kl {
        assert(q =~= n.key@);
        assert(n.key@.take(kl) =~= n.key@);
        assert(find(n, n.key@) == n.key_value);
        assert forall|t: Seq<u8>| is_prefix(t, q) && t.len() < kl implies find(n, t) is None by {
        }
        match n.key_value {
            Some(kv) => {
                assert(anc(n, q) == Some((n.key@, kv)));
                assert(is_prefix(n.key@, q));
            },
            None => {
                assert forall|t: Seq<u8>| is_prefix(t, q) implies find(n, t) is None by {
                    if t.len() == kl {
                        assert(t =~= n.key@);
                    }
                }
            },
        }
    } else {
        let j = q[kl] as int;
        assert(n.key@.take(kl) =~= n.key@);
        assert(find(n, n.key@) == n.key_value);
        assert(is_prefix(n.key@, q));
        // any prefix of q that is longer than the fragment routes to slot j
        assert forall|t: Seq<u8>| is_prefix(t, q) && t.len() > kl implies t.take(kl) == n.key@
            && t[kl] == q[kl] by {
            assert(t.take(kl) =~= q.take(kl)) by {
                assert(forall|i: int| 0 <= i < kl ==> t.take(kl)[i] == q.take(t.len() as int)[i]);
            }
            assert(t[kl] == q.take(t.len() as int)[kl]);
        }
        if 0 <= j < 16 && n.children@[j] is Some {
            let c = *n.children@[j]->Some_0;
            lemma_wf_slots_index(n.children@, pp, 16, j);
            lemma_anc_properties(c, q.skip(kl), pp);
            let ckl = c.key@.len() as int;
            // prefixes of the remainder correspond to routed prefixes
            assert forall|t: Seq<u8>| is_prefix(t, q) && t.len() > kl implies find(n, t) == find(
                c,
                t.skip(kl),
            ) && is_prefix(t.skip(kl), q.skip(kl)) by {
                assert(t.skip(kl).len() == t.len() - kl);
                assert(q.skip(kl).take(t.len() - kl) =~= t.skip(kl)) by {
                    assert(forall|i: int|
                        0 <= i < t.len() - kl ==> q.skip(kl)[i] == q[kl + i] && t.skip(kl)[i] == t[
                            i + kl
                        ] && t[i + kl] == q.take(t.len() as int)[i + kl]);
                }
            }
            match anc(c, q.skip(kl)) {
                Some(ac) => {
                    assert(anc(n, q) == Some((n.key@ + ac.0, ac.1)));
                    let a0 = n.key@ + ac.0;
                    // the child's path begins with its fragment, so it is non-empty
                    assert(ac.0.len() > 0) by {
                        if ac.0.len() == 0 {
                            assert(find(c, ac.0) == Some(ac.1));
                            assert(ac.0.len() < ckl);
                            assert(false);
                        }
                    }
                    assert(ac.0.take(ckl) == c.key@) by {
                        assert(find(c, ac.0) == Some(ac.1));
                        if ac.0.len() < ckl || ac.0.take(ckl) != c.key@ {
                            assert(find(c, ac.0) is None);
                            assert(false);
                        }
                    }
                    assert(ac.0[0] == c.key@[0]) by {
                        assert(ac.0.take(ckl)[0] == ac.0[0]);
                        assert(ckl > 0);
                    }
                    assert(is_prefix(a0, q)) by {
                        assert(q.take(a0.len() as int) =~= a0) by {
                            assert(forall|i: int|
                                0 <= i < ac.0.len() ==> q.skip(kl).take(ac.0.len() as int)[i] == q[
                                    kl + i
                                ]);
                        }
                    }
                    assert(find(n, a0) == Some(ac.1)) by {
                        assert(a0.len() > kl);
                        assert(a0.take(kl) =~= n.key@);
                        assert(a0[kl] == ac.0[0]);
                        assert(a0[kl] as int == j);
                        assert(a0.skip(kl) =~= ac.0);
                    }
                    assert forall|t: Seq<u8>| is_prefix(t, q) && t.len() > a0.len() implies find(
                        n,
                        t,
                    ) is None by {
                        assert(t.len() > kl);
                        assert(find(n, t) == find(c, t.skip(kl)));
                        assert(t.skip(kl).len() > ac.0.len());
                    }
                },
                None => {
                    assert forall|t: Seq<u8>| is_prefix(t, q) && t.len() > kl implies find(n, t)
                        is None by {
                        assert(find(n, t) == find(c, t.skip(kl)));
                    }
                    match n.key_value {
                        Some(kv) => {
                            assert(anc(n, q) == Some((n.key@, kv)));
                        },
                        None => {
                            assert forall|t: Seq<u8>| is_prefix(t, q) implies find(n, t)
                                is None by {
                                if t.len() == kl {
                                    assert(t =~= n.key@);
                                }
                            }
                        },
                    }
                },
            }
        } else {
            // the slot is empty or the symbol is no nibble: nothing deeper
            assert forall|t: Seq<u8>| is_prefix(t, q) && t.len() > kl implies find(n, t)
                is None by {
            }
            match n.key_value {
                Some(kv) => {
                    assert(anc(n, q) == Some((n.key@, kv)));
                },
                None => {
                    assert forall|t: Seq<u8>| is_prefix(t, q) implies find(n, t) is None by {
                        if t.len() == kl {
                            assert(t =~= n.key@);
                        }
                    }
                },
            }
        }
    }
}

/// Whatever one slot's subtree lists, the slot range lists too.
pub proof fn lemma_entries_children_slot<K, V>(
    cs: Seq<Option<Box<TrieNode<K, V>>>>,
    j: int,
    i: int,
    e: (K, V),
)
    requires
        0 <= j < i <= cs.len(),
        cs[j] is Some,
        entries_seq(*cs[j]->Some_0).contains(e),
    ensures
        entries_children(cs, i).contains(e),
    decreases i,
{
    if j == i - 1 {
        let pre = entries_children(cs, i - 1);
        let sub = entries_seq(*cs[j]->Some_0);
        let w = choose|w: int| 0 <= w < sub.len() && sub[w] == e;
        assert(entries_children(cs, i)[pre.len() + w] == e);
    } else {
        lemma_entries_children_slot(cs, j, i - 1, e);
        let pre = entries_children(cs, i - 1);
        let w = choose|w: int| 0 <= w < pre.len() && pre[w] == e;
        assert(entries_children(cs, i)[w] == e);
    }
}

/// Iteration coverage, one direction: every stored pair is listed.
pub proof fn lemma_find_in_entries<K: TrieKey, V>(n: TrieNode<K, V>, p: Seq<u8>, q: Seq<u8>)
    requires
        wf_node(n, p),
        find(n, q) is Some,
    ensures
        entries_seq(n).contains((find(n, q)->Some_0.key, find(n, q)->Some_0.value)),
    decreases n,
{
    let kl = n.key@.len() as int;
    let kv = find(n, q)->Some_0;
    if q.len() == kl {
        assert(entries_seq(n)[0] == (kv.key, kv.value));
    } else {
        let j = q[kl] as int;
        let c = *n.children@[j]->Some_0;
        lemma_wf_slots_index(n.children@, p + n.key@, 16, j);
        assert(find(n, q) == find(c, q.skip(kl)));
        lemma_find_in_entries(c, p + n.key@, q.skip(kl));
        assert(entries_seq(c).contains((kv.key, kv.value)));
        lemma_entries_children_slot(n.children@, j, 16, (kv.key, kv.value));
        let ec = entries_children(n.children@, 16);
        let w = choose|w: int| 0 <= w < ec.len() && ec[w] == (kv.key, kv.value);
        assert(entries_seq(n)[(match n.key_value {
            Some(_) => 1int,
            None => 0int,
        }) + w] == (kv.key, kv.value));
    }
}

/// The key of a stored pair encodes to the full path that finds it.
pub proof fn lemma_find_key_encodes<K: TrieKey, V>(n: TrieNode<K, V>, p: Seq<u8>, q: Seq<u8>)
    requires
        wf_node(n, p),
        find(n, q) is Some,
    ensures
        nibbles_of(find(n, q)->Some_0.key.enc_spec()) == p + q,
    decreases n,
{
    let kl = n.key@.len() as int;
    if q.len() == kl {
        assert(q =~= n.key@);
    } else {
        let j = q[kl] as int;
        let c = *n.children@[j]->Some_0;
        lemma_wf_slots_index(n.children@, p + n.key@, 16, j);
        assert(find(n, q) == find(c, q.skip(kl)));
        lemma_find_key_encodes(c, p + n.key@, q.skip(kl));
        assert((p + n.key@) + q.skip(kl) =~= p + q) by {
            lemma_take_skip_cat(q, kl);
        }
    }
}

/// Iteration coverage, the other direction: every listed pair is stored,
/// at the path that its own key encodes.
pub proof fn lemma_entries_in_find<K: TrieKey, V>(n: TrieNode<K, V>, p: Seq<u8>, i: int)
    requires
        wf_node(n, p),
        0 <= i < entries_seq(n).len(),
    ensures
        nibbles_of(entries_seq(n)[i].0.enc_spec()).len() >= p.len(),
        find(n, nibbles_of(entries_seq(n)[i].0.enc_spec()).skip(p.len() as int)) matches Some(kv)
            && (kv.key, kv.value) == entries_seq(n)[i],
    decreases n,
{
    let kl = n.key@.len() as int;
    let e = entries_seq(n)[i];
    let selfn: int = match n.key_value {
        Some(_) => 1int,
        None => 0int,
    };
    if i < selfn {
        // the node's own pair: its key encodes to the node's full path
        let kv = n.key_value->Some_0;
        assert(e == (kv.key, kv.value));
        assert(nibbles_of(kv.key.enc_spec()) == p + n.key@);
        assert((p + n.key@).skip(p.len() as int) =~= n.key@);
        assert(n.key@.take(kl) =~= n.key@);
        assert(find(n, n.key@) == n.key_value);
    } else {
        lemma_entries_slot_of(n.children@, 16, i - selfn);
        let j = choose|j: int|
            0 <= j < 16 && n.children@[j] is Some && entries_seq(*n.children@[j]->Some_0).contains(
                entries_children(n.children@, 16)[i - selfn],
            );
        let c = *n.children@[j]->Some_0;
        let w = choose|w: int|
            0 <= w < entries_seq(c).len() && entries_seq(c)[w] == entries_children(
                n.children@,
                16,
            )[i - selfn];
        lemma_wf_slots_index(n.children@, p + n.key@, 16, j);
        lemma_entries_in_find(c, p + n.key@, w);
        let enc = nibbles_of(e.0.enc_spec());
        let q1 = enc.skip(p.len() as int);
        let q2 = enc.skip((p + n.key@).len() as int);
        // the deep lookup passes through this node's fragment and slot
        assert(find(c, q2) matches Some(kv2) && (kv2.key, kv2.value) == e);
        lemma_find_key_encodes(c, p + n.key@, q2);
        assert(enc == (p + n.key@) + q2);
        assert(q2.len() >= c.key@.len() && q2.take(c.key@.len() as int) == c.key@) by {
            if q2.len() < c.key@.len() || q2.take(c.key@.len() as int) != c.key@ {
                assert(find(c, q2) is None);
            }
        }
        assert(c.key@.len() > 0);
        assert(q2[0] == c.key@[0]) by {
            assert(q2.take(c.key@.len() as int)[0] == q2[0]);
        }
        assert(q1 =~= n.key@ + q2) by {
            assert(forall|x: int|
                0 <= x < n.key@.len() ==> q1[x] == enc[p.len() + x] && (p + n.key@)[p.len() + x]
                    == n.key@[x]);
            assert(forall|x: int|
                0 <= x < q2.len() ==> q2[x] == enc[p.len() + n.key@.len() + x]);
        }
        assert(q1.take(kl) =~= n.key@);
        assert(q1.len() > kl);
        assert(q1[kl] == q2[0]);
        assert(q1.skip(kl) =~= q2);
        assert(find(n, q1) == find(c, q2));
    }
}

/// A pair listed for a slot range is listed by some occupied slot.
pub proof fn lemma_entries_slot_of<K, V>(
    cs: Seq<Option<Box<TrieNode<K, V>>>>,
    i: int,
    w: int,
)
    requires
        i <= cs.len(),
        0 <= w < entries_children(cs, i).len(),
    ensures
        exists|j: int|
            0 <= j < i && cs[j] is Some && entries_seq(*cs[j]->Some_0).contains(
                #[trigger] entries_children(cs, i)[w],
            ),
    decreases i,
{
    if i > 0 {
        let pre = entries_children(cs, i - 1);
        if w < pre.len() {
            lemma_entries_slot_of(cs, i - 1, w);
            let j = choose|j: int|
                0 <= j < i - 1 && cs[j] is Some && entries_seq(*cs[j]->Some_0).contains(pre[w]);
            assert(entries_children(cs, i)[w] == pre[w]);
            assert(entries_seq(*cs[j]->Some_0).contains(entries_children(cs, i)[w]));
        } else {
            let sub = entries_seq(*cs[i - 1]->Some_0);
            assert(entries_children(cs, i)[w] == sub[w - pre.len()]);
            assert(sub.contains(entries_children(cs, i)[w]));
        }
    }
}

/// Walk from `n` along the nibbles of `q` past `pos` and yield a mutable
/// reference to the value stored at the end of the walk, provided its
/// typed key equals `k`; writing through it changes that stored value and
/// nothing else.
#[verifier::rlimit(60)]
pub(crate) fn get_mut_at<'a, K: TrieKey, V>(
    n: &'a mut TrieNode<K, V>,
    q: &NibbleVec,
    pos: usize,
    k: &K,
    Ghost(p): Ghost<Seq<u8>>,
) -> (r: Option<&'a mut V>)
    requires
        wf_node(*old(n), p),
        q.wf(),
        pos <= q@.len(),
    ensures
        match r {
            Some(v) => {
                &&& find(*old(n), q@.skip(pos as int)) is Some
                &&& k.key_eq_spec(&find(*old(n), q@.skip(pos as int))->Some_0.key)
                &&& *v == find(*old(n), q@.skip(pos as int))->Some_0.value
                &&& wf_node(*final(n), p)
                &&& final(n).key@ == old(n).key@
                &&& (final(n).key_value is Some <==> old(n).key_value is Some)
                &&& slot_count(final(n).children@, 16) == slot_count(old(n).children@, 16)
                &&& kv_count(*final(n)) == kv_count(*old(n))
                &&& forall|s: Seq<u8>| find(*final(n), s) == if s == q@.skip(pos as int) {
                    Some(
                        (KeyValue {
                            key: find(*old(n), q@.skip(pos as int))->Some_0.key,
                            value: *final(v),
                        }),
                    )
                } else {
                    find(*old(n), s)
                }
            },
            None => {
                &&& match find(*old(n), q@.skip(pos as int)) {
                    Some(kv0) => !k.key_eq_spec(&kv0.key),
                    None => true,
                }
                &&& final(n).key == old(n).key
                &&& final(n).key_value == old(n).key_value
                &&& slot_count(final(n).children@, 16) == slot_count(old(n).children@, 16)
                &&& wf_node(*final(n), p)
                &&& kv_count(*final(n)) == kv_count(*old(n))
                &&& forall|s: Seq<u8>| find(*final(n), s) == find(*old(n), s)
            },
        },
    decreases *old(n),
{
    let ghost n0 = *n;
    let ghost q1 = q@.skip(pos as int);
    let ghost kl = n0.key@.len() as int;
    let ghost pp = p + n0.key@;
    let ghost cs0 = n0.children@;
    let qlen: usize = q.len();
    let m: usize = n.key.match_count_from(q, pos);
    if m < n.key.len() {
        proof {
            if pos + m < q@.len() && (m as int) < q1.len() {
                assert(q1[m as int] == q@[pos + m]);
                assert(n0.key@[m as int] != q1[m as int]);
                if q1.len() >= kl && q1.take(kl) == n0.key@ {
                    assert(q1.take(kl)[m as int] == q1[m as int]);
                    assert(false);
                }
            } else {
                assert(q1.len() < kl);
            }
            assert(find(n0, q1) is None);
        }
        None
    } else if pos + m == qlen {
        proof {
            assert(n0.key@.take(m as int) == q1.take(m as int));
            assert(n0.key@ =~= n0.key@.take(m as int));
            assert(q1 =~= q1.take(m as int));
            assert(q1 == n0.key@);
            assert(find(n0, q1) == n0.key_value);
        }
        let matched: bool = match &n.key_value {
            Some(kvp) => k.key_eq(&kvp.key),
            None => false,
        };
        if !matched {
            None
        } else {
            match &mut n.key_value {
                Some(kvp) => {
                    let r = &mut kvp.value;
                    proof {
                        let ghost ab = *after_borrow(n);
                        assert(ab.key == n0.key);
                        assert(ab.children == n0.children);
                        assert(ab.key_value == Some(
                            (KeyValue { key: n0.key_value->Some_0.key, value: *final(r) }),
                        ));
                        assert(find(ab, q1) == ab.key_value);
                        assert forall|s: Seq<u8>| find(ab, s) == if s == q1 {
                            Some((KeyValue { key: n0.key_value->Some_0.key, value: *final(r) }))
                        } else {
                            find(n0, s)
                        } by {
                            if s != q1 {
                                let sl = s.len();
                                if sl >= kl && s.take(kl) == n0.key@ {
                                    if sl == kl {
                                        assert(s =~= n0.key@);
                                    } else {
                                        let jj = s[kl] as int;
                                        if 0 <= jj < 16 {
                                            assert(ab.children@[jj] == cs0[jj]);
                                        }
                                    }
                                }
                            }
                        }
                        assert(wf_node(ab, p));
                    }
                    Some(r)
                },
                None => None,
            }
        }
    } else {
        let j: u8 = q.get(pos + m);
        let js: usize = j as usize;
        proof {
            assert(n0.key@.take(m as int) == q1.take(m as int));
            assert(n0.key@ =~= n0.key@.take(m as int));
            assert(q1.take(kl) == n0.key@);
            assert(q1[kl] == q@.skip(pos as int)[kl]);
            assert(q@.skip(pos as int)[kl] == q@[pos + kl]);
            assert(j < 16);
            lemma_wf_slots_index(cs0, pp, 16, js as int);
            lemma_skip_skip(q@, pos as int, m as int);
            lemma_take_skip_cat(q1, m as int);
        }
        let ghost q2 = q@.skip((pos + m) as int);
        if n.children[js].is_none() {
            proof {
                assert(find(n0, q1) is None);
            }
            return None;
        }
        match &mut n.children[js] {
            Some(b) => {
                proof {
                    assert(decreases_to!(n0 => n0.children));
                    assert(decreases_to!(n0.children => n0.children@));
                    assert(decreases_to!(n0.children@ => n0.children@[js as int]));
                }
                let ghost bb = *cs0[js as int]->Some_0;
                let r = get_mut_at(&mut **b, q, pos + m, k, Ghost(pp));
                proof {
                    assert(find(n0, q1) == find(bb, q2)) by {
                        assert(q1.skip(kl) == q2);
                    }
                }
                match r {
                    Some(v) => {
                        proof {
                            let ghost ab = *after_borrow(n);
                            let ghost nb = *ab.children@[js as int]->Some_0;
                            assert(ab.key == n0.key);
                            assert(ab.key_value == n0.key_value);
                            assert(ab.children@ =~= cs0.update(
                                js as int,
                                ab.children@[js as int],
                            ));
                            lemma_kv_sum_update(cs0, js as int, ab.children@[js as int], 16);
                            lemma_slot_count_update(cs0, js as int, ab.children@[js as int], 16);
                            assert(ab.children@[js as int] is Some);
                            assert(occ(ab.children@[js as int]) == occ(cs0[js as int]));
                            assert(slot_count(ab.children@, 16) == slot_count(cs0, 16));
                            assert(kv_opt(ab.children@[js as int]) == kv_opt(cs0[js as int]));
                            assert(kv_count(ab) == kv_count(n0));
                            assert(wf_slot(ab.children@, pp, js as int));
                            assert forall|jj: int| 0 <= jj < 16 implies #[trigger] wf_slot(
                                ab.children@,
                                pp,
                                jj,
                            ) by {
                                if jj != js as int {
                                    lemma_wf_slots_index(cs0, pp, 16, jj);
                                    assert(ab.children@[jj] == cs0[jj]);
                                }
                            }
                            lemma_wf_slots_build(ab.children@, pp, 16);
                            assert(wf_node(ab, p));
                            assert forall|s: Seq<u8>| find(ab, s) == if s == q1 {
                                Some(
                                    (KeyValue {
                                        key: find(n0, q1)->Some_0.key,
                                        value: *final(v),
                                    }),
                                )
                            } else {
                                find(n0, s)
                            } by {
                                let sl = s.len();
                                if sl >= kl && s.take(kl) == n0.key@ && sl > kl {
                                    let jj = s[kl] as int;
                                    if jj == js as int {
                                        assert(find(ab, s) == find(nb, s.skip(kl)));
                                        assert(find(n0, s) == find(bb, s.skip(kl)));
                                        lemma_take_skip_cat(s, kl);
                                        assert(s == s.take(kl) + s.skip(kl));
                                        assert(q1 == q1.take(kl) + q1.skip(kl));
                                        assert(s.take(kl) == q1.take(kl));
                                        if s == q1 {
                                            assert(s.skip(kl) == q2);
                                        } else {
                                            assert(s.skip(kl) != q2);
                                        }
                                    } else {
                                        if 0 <= jj < 16 {
                                            assert(ab.children@[jj] == cs0[jj]);
                                        }
                                        assert(s != q1);
                                    }
                                } else {
                                    if sl == kl && s.take(kl) == n0.key@ {
                                        assert(s =~= n0.key@);
                                        assert(find(ab, s) == ab.key_value);
                                        assert(find(n0, s) == n0.key_value);
                                    }
                                    assert(s != q1);
                                }
                            }
                        }
                        Some(v)
                    },
                    None => {
                        proof {
                            let ghost ab = *after_borrow(n);
                            let ghost nb = *ab.children@[js as int]->Some_0;
                            assert(ab.key == n0.key);
                            assert(ab.key_value == n0.key_value);
                            assert(ab.children@ =~= cs0.update(
                                js as int,
                                ab.children@[js as int],
                            ));
                            assert(ab.children@[js as int] is Some);
                            assert(nb.key == bb.key);
                            assert(nb.key_value == bb.key_value);
                            lemma_kv_sum_update(cs0, js as int, ab.children@[js as int], 16);
                            lemma_slot_count_update(cs0, js as int, ab.children@[js as int], 16);
                            assert(kv_opt(ab.children@[js as int]) == kv_opt(cs0[js as int]));
                            assert(kv_count(ab) == kv_count(n0));
                            assert(occ(ab.children@[js as int]) == occ(cs0[js as int]));
                            assert(slot_count(ab.children@, 16) == slot_count(cs0, 16));
                            assert(slot_count(nb.children@, 16) == slot_count(bb.children@, 16));
                            assert(wf_slot(ab.children@, pp, js as int));
                            assert forall|jj: int| 0 <= jj < 16 implies #[trigger] wf_slot(
                                ab.children@,
                                pp,
                                jj,
                            ) by {
                                if jj != js as int {
                                    lemma_wf_slots_index(cs0, pp, 16, jj);
                                    assert(ab.children@[jj] == cs0[jj]);
                                }
                            }
                            lemma_wf_slots_build(ab.children@, pp, 16);
                            assert(wf_node(ab, p));
                            assert forall|s: Seq<u8>| find(ab, s) == find(n0, s) by {
                                let sl = s.len();
                                if sl >= kl && s.take(kl) == n0.key@ && sl > kl {
                                    let jj = s[kl] as int;
                                    if jj == js as int {
                                        assert(find(ab, s) == find(nb, s.skip(kl)));
                                        assert(find(n0, s) == find(bb, s.skip(kl)));
                                    } else {
                                        if 0 <= jj < 16 {
                                            assert(ab.children@[jj] == cs0[jj]);
                                        }
                                    }
                                } else {
                                    if sl == kl && s.take(kl) == n0.key@ {
                                        assert(s =~= n0.key@);
                                        assert(find(ab, s) == ab.key_value);
                                        assert(find(n0, s) == n0.key_value);
                                    }
                                }
                            }
                        }
                        None
                    },
                }
            },
            None => {
                None
            },
        }
    }
}

} // verus!
