//! The key-encoding capability: typed keys reduced to byte encodings.

use vstd::prelude::*;

verus! {

/// A key that the trie can store: it has a deterministic, total byte
/// encoding and an equality that is consistent with the encoding.
///
/// Two distinct keys may share an encoding; the trie therefore keeps the
/// typed key beside each value, and lookups compare against it, treating a
/// mismatch as absence.
pub trait TrieKey: Sized {
    /// The byte encoding, as a mathematical sequence.
    spec fn enc_spec(&self) -> Seq<u8>;

    /// Key equality, as lookups use it to disambiguate encoding collisions.
    spec fn key_eq_spec(&self, other: &Self) -> bool;

    /// Every key equals itself.
    proof fn lemma_key_eq_reflexive(&self)
        ensures
            self.key_eq_spec(self),
    ;

    /// Equal keys share an encoding.
    proof fn lemma_key_eq_consistent(&self, other: &Self)
        ensures
            self.key_eq_spec(other) ==> self.enc_spec() == other.enc_spec(),
    ;

    /// Compute the byte encoding.
    fn encode(&self) -> (r: Vec<u8>)
        ensures
            r@ == self.enc_spec(),
    ;

    /// Decide key equality.
    fn key_eq(&self, other: &Self) -> (r: bool)
        ensures
            r == self.key_eq_spec(other),
    ;
}

/// Decide equality of two byte vectors.
fn bytes_eq(a: &Vec<u8>, b: &Vec<u8>) -> (r: bool)
    ensures
        r == (a@ == b@),
{
    if a.len() != b.len() {
        proof {
            assert(a@ != b@);
        }
        return false;
    }
    let mut i: usize = 0;
    while i < a.len()
        invariant
            i <= a@.len(),
            a@.len() == b@.len(),
            forall|j: int| 0 <= j < i ==> a@[j] == b@[j],
        decreases a@.len() - i,
    {
        if a[i] != b[i] {
            proof {
                assert(a@ != b@);
            }
            return false;
        }
        i = i + 1;
    }
    proof {
        assert(a@ =~= b@);
    }
    true
}

/// Copy a byte vector.
fn bytes_copy(a: &Vec<u8>) -> (r: Vec<u8>)
    ensures
        r@ == a@,
{
    let mut r: Vec<u8> = Vec::new();
    let mut i: usize = 0;
    while i < a.len()
        invariant
            i <= a@.len(),
            r@ == a@.subrange(0, i as int),
        decreases a@.len() - i,
    {
        r.push(a[i]);
        i = i + 1;
        proof {
            assert(r@ =~= a@.subrange(0, i as int));
        }
    }
    proof {
        assert(r@ =~= a@);
    }
    r
}

impl TrieKey for Vec<u8> {
    open spec fn enc_spec(&self) -> Seq<u8> {
        self@
    }

    open spec fn key_eq_spec(&self, other: &Self) -> bool {
        self@ == other@
    }

    proof fn lemma_key_eq_reflexive(&self) {
    }

    proof fn lemma_key_eq_consistent(&self, other: &Self) {
    }

    fn encode(&self) -> (r: Vec<u8>) {
        bytes_copy(self)
    }

    fn key_eq(&self, other: &Self) -> (r: bool) {
        bytes_eq(self, other)
    }
}

/// A key whose encoding drops its tag: two tagged keys with equal bytes and
/// different tags are distinct keys that collide in nibble space.
pub struct TaggedKey {
    pub bytes: Vec<u8>,
    pub tag: u64,
}

impl TrieKey for TaggedKey {
    open spec fn enc_spec(&self) -> Seq<u8> {
        self.bytes@
    }

    open spec fn key_eq_spec(&self, other: &Self) -> bool {
        self.bytes@ == other.bytes@ && self.tag == other.tag
    }

    proof fn lemma_key_eq_reflexive(&self) {
    }

    proof fn lemma_key_eq_consistent(&self, other: &Self) {
    }

    fn encode(&self) -> (r: Vec<u8>) {
        bytes_copy(&self.bytes)
    }

    fn key_eq(&self, other: &Self) -> (r: bool) {
        self.tag == other.tag && bytes_eq(&self.bytes, &other.bytes)
    }
}

} // verus!
