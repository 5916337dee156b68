//! The nibble-sequence abstraction: an ordered sequence of 4-bit symbols
//! with push/pop, split/join and common-prefix measurement.

use vstd::prelude::*;

verus! {

/// The nibble sequence of a byte sequence: every byte contributes its high
/// nibble followed by its low nibble.
pub open spec fn nibbles_of(bytes: Seq<u8>) -> Seq<u8> {
    Seq::new(
        bytes.len() * 2,
        |i: int| if i % 2 == 0 { (bytes[i / 2] / 16) as u8 } else { (bytes[i / 2] % 16) as u8 },
    )
}

/// All symbols of the sequence are nibbles, that is below 16.
pub open spec fn all_nibbles(s: Seq<u8>) -> bool {
    forall|i: int| 0 <= i < s.len() ==> s[i] < 16
}

/// An ordered sequence of values in `{0..15}`, one byte per nibble.
#[verifier::ext_equal]
pub struct NibbleVec {
    data: Vec<u8>,
}

impl View for NibbleVec {
    type V = Seq<u8>;

    closed spec fn view(&self) -> Seq<u8> {
        self.data@
    }
}

impl NibbleVec {
    /// Every stored symbol is a 4-bit value.
    pub open spec fn wf(&self) -> bool {
        all_nibbles(self@)
    }

    /// The empty nibble sequence.
    pub fn new() -> (r: NibbleVec)
        ensures
            r@ == Seq::<u8>::empty(),
            r.wf(),
    {
        NibbleVec { data: Vec::new() }
    }

    /// Number of nibbles held.
    pub fn len(&self) -> (n: usize)
        ensures
            n == self@.len(),
    {
        self.data.len()
    }

    /// The nibble at position `i`.
    pub fn get(&self, i: usize) -> (n: u8)
        requires
            i < self@.len(),
        ensures
            n == self@[i as int],
    {
        self.data[i]
    }

    /// Append one nibble at the back.
    pub fn push(&mut self, n: u8)
        requires
            n < 16,
        ensures
            final(self)@ == old(self)@.push(n),
            old(self).wf() ==> final(self).wf(),
    {
        self.data.push(n);
    }

    /// Remove and yield the last nibble.
    pub fn pop(&mut self) -> (n: u8)
        requires
            old(self)@.len() > 0,
        ensures
            n == old(self)@.last(),
            final(self)@ == old(self)@.drop_last(),
            old(self).wf() ==> final(self).wf(),
    {
        let n: u8 = self.data.pop().unwrap();
        proof {
            assert(self@ =~= old(self)@.drop_last());
        }
        n
    }

    /// Split at `i`: the receiver keeps the first `i` nibbles and the
    /// remainder is returned.
    pub fn split(&mut self, i: usize) -> (tail: NibbleVec)
        requires
            i <= old(self)@.len(),
        ensures
            final(self)@ == old(self)@.take(i as int),
            tail@ == old(self)@.skip(i as int),
            old(self).wf() ==> final(self).wf() && tail.wf(),
    {
        let tail_data = self.data.split_off(i);
        proof {
            assert(self@ =~= old(self)@.take(i as int));
            assert(tail_data@ =~= old(self)@.skip(i as int));
        }
        NibbleVec { data: tail_data }
    }

    /// Concatenate `other` onto the back of the receiver.
    pub fn join(&mut self, other: NibbleVec)
        ensures
            final(self)@ == old(self)@ + other@,
            old(self).wf() && other.wf() ==> final(self).wf(),
    {
        let ghost snap = other@;
        let mut moved = other;
        self.data.append(&mut moved.data);
        proof {
            assert(self@ =~= old(self)@ + snap);
        }
    }

    /// Copy of the nibbles from position `pos` to the end.
    pub fn suffix(&self, pos: usize) -> (r: NibbleVec)
        requires
            pos <= self@.len(),
        ensures
            r@ == self@.skip(pos as int),
            self.wf() ==> r.wf(),
    {
        let mut data: Vec<u8> = Vec::new();
        let mut j: usize = pos;
        while j < self.data.len()
            invariant
                pos <= j <= self@.len(),
                data@ == self@.subrange(pos as int, j as int),
            decreases self@.len() - j,
        {
            data.push(self.data[j]);
            j = j + 1;
            proof {
                assert(data@ =~= self@.subrange(pos as int, j as int));
            }
        }
        proof {
            assert(data@ =~= self@.skip(pos as int));
        }
        NibbleVec { data }
    }

    /// Copy of the first `end` nibbles.
    pub fn prefix(&self, end: usize) -> (r: NibbleVec)
        requires
            end <= self@.len(),
        ensures
            r@ == self@.take(end as int),
            self.wf() ==> r.wf(),
    {
        let mut data: Vec<u8> = Vec::new();
        let mut j: usize = 0;
        while j < end
            invariant
                j <= end <= self@.len(),
                data@ == self@.subrange(0, j as int),
            decreases end - j,
        {
            data.push(self.data[j]);
            j = j + 1;
            proof {
                assert(data@ =~= self@.subrange(0, j as int));
            }
        }
        proof {
            assert(data@ =~= self@.take(end as int));
        }
        NibbleVec { data }
    }

    /// An identical copy.
    pub fn duplicate(&self) -> (r: NibbleVec)
        ensures
            r@ == self@,
    {
        let r = self.suffix(0);
        proof {
            assert(r@ =~= self@);
        }
        r
    }

    /// Lift a byte vector into nibble space, two nibbles per byte.
    pub fn from_bytes(bytes: &Vec<u8>) -> (r: NibbleVec)
        ensures
            r@ == nibbles_of(bytes@),
            r.wf(),
    {
        let mut data: Vec<u8> = Vec::new();
        let mut j: usize = 0;
        while j < bytes.len()
            invariant
                j <= bytes@.len(),
                data@ == nibbles_of(bytes@).take(2 * j as int),
            decreases bytes@.len() - j,
        {
            let b: u8 = bytes[j];
            data.push(b / 16);
            data.push(b % 16);
            j = j + 1;
            proof {
                assert(data@ =~= nibbles_of(bytes@).take(2 * j as int));
            }
        }
        proof {
            assert(data@ =~= nibbles_of(bytes@));
            assert(all_nibbles(data@));
        }
        NibbleVec { data }
    }


    /// Decide whether every stored symbol is below 16.
    pub fn is_nibbles(&self) -> (r: bool)
        ensures
            r == self.wf(),
    {
        let mut i: usize = 0;
        while i < self.data.len()
            invariant
                i <= self@.len(),
                forall|j: int| 0 <= j < i ==> self@[j] < 16,
            decreases self@.len() - i,
        {
            if self.data[i] >= 16 {
                return false;
            }
            i = i + 1;
        }
        true
    }

    /// Decide equality of two nibble sequences.
    pub fn eq_vec(&self, other: &NibbleVec) -> (r: bool)
        ensures
            r == (self@ == other@),
    {
        if self.data.len() != other.data.len() {
            proof {
                assert(self@ != other@);
            }
            return false;
        }
        let mut i: usize = 0;
        while i < self.data.len()
            invariant
                i <= self@.len(),
                self@.len() == other@.len(),
                forall|j: int| 0 <= j < i ==> self@[j] == other@[j],
            decreases self@.len() - i,
        {
            if self.data[i] != other.data[i] {
                proof {
                    assert(self@ != other@);
                }
                return false;
            }
            i = i + 1;
        }
        proof {
            assert(self@ =~= other@);
        }
        true
    }

    /// Length of the longest common prefix of the receiver and `q` with its
    /// first `pos` nibbles dropped.
    pub fn match_count_from(&self, q: &NibbleVec, pos: usize) -> (m: usize)
        requires
            pos <= q@.len(),
        ensures
            m <= self@.len(),
            pos + m <= q@.len(),
            self@.take(m as int) == q@.skip(pos as int).take(m as int),
            m < self@.len() && pos + m < q@.len() ==> self@[m as int] != q@[pos + m],
    {
        let qrem: usize = q.data.len() - pos;
        let mut m: usize = 0;
        while m < self.data.len() && m < qrem && self.data[m] == q.data[pos + m]
            invariant
                m <= self@.len(),
                qrem == q@.len() - pos,
                pos + qrem <= usize::MAX,
                pos + m <= q@.len(),
                forall|i: int| 0 <= i < m ==> self@[i] == q@[pos + i],
            decreases self@.len() - m,
        {
            m = m + 1;
        }
        proof {
            assert(self@.take(m as int) =~= q@.skip(pos as int).take(m as int));
        }
        m
    }

    /// Length of the longest common prefix of two nibble sequences.
    pub fn match_count(&self, other: &NibbleVec) -> (m: usize)
        ensures
            m <= self@.len(),
            m <= other@.len(),
            self@.take(m as int) == other@.take(m as int),
            m < self@.len() && m < other@.len() ==> self@[m as int] != other@[m as int],
    {
        let m: usize = self.match_count_from(other, 0);
        proof {
            assert(other@.skip(0) =~= other@);
        }
        m
    }
}

} // verus!
