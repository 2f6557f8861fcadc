//! Read and write accesses to indexed elements (archetypes), used to tell whether two
//! systems may run at the same time.
use vstd::prelude::*;
use crate::ecs::bits::{Bits, max_bits};

verus! {

/// Bit `index` of `s`, with every bit past the end read as unset.
pub open spec fn bit_at(s: Seq<bool>, index: int) -> bool {
    0 <= index < s.len() && s[index]
}

/// `s` cut or padded with unset bits to `len` bits.
pub open spec fn resized(s: Seq<bool>, len: nat) -> Seq<bool> {
    Seq::new(len, |i: int| bit_at(s, i))
}

/// The abstract value of an [`Access`]: which elements are read and which are written.
/// The two sequences may have different lengths; bits past either end are unset.
pub struct AccessView {
    pub reads: Seq<bool>,
    pub writes: Seq<bool>,
}

impl AccessView {
    /// No element read by one side is written by the other, in either direction.
    pub open spec fn is_disjoint(self, other: AccessView) -> bool {
        &&& forall|i: int| !(#[trigger] bit_at(self.reads, i) && bit_at(other.writes, i))
        &&& forall|i: int| !(#[trigger] bit_at(self.writes, i) && bit_at(other.reads, i))
    }

    /// Both sequences brought to `len` bits.
    pub open spec fn resized(self, len: nat) -> AccessView {
        AccessView { reads: resized(self.reads, len), writes: resized(self.writes, len) }
    }

    /// The value after `add_read(index)`: the reads grow by `index + 1` bits (the writes
    /// to at least as many) and bit `index` of the reads is set; every other bit stays.
    pub open spec fn after_add_read(self, index: nat) -> AccessView {
        let grown = (self.reads.len() + index + 1) as nat;
        AccessView {
            reads: Seq::new(grown, |i: int| i == index || bit_at(self.reads, i)),
            writes: resized(self.writes, max_len(self.writes.len(), grown)),
        }
    }

    /// The value after `add_write(index)`: as `add_read`, and bit `index` of the writes
    /// is set too.
    pub open spec fn after_add_write(self, index: nat) -> AccessView {
        let grown = (self.reads.len() + index + 1) as nat;
        AccessView {
            reads: Seq::new(grown, |i: int| i == index || bit_at(self.reads, i)),
            writes: Seq::new(max_len(self.writes.len(), grown), |i: int| i == index || bit_at(self.writes, i)),
        }
    }

    /// The value after `union(other)`: each sequence as long as the longer of the two
    /// sides, each bit set where it is set on either side.
    pub open spec fn after_union(self, other: AccessView) -> AccessView {
        AccessView {
            reads: Seq::new(max_len(self.reads.len(), other.reads.len()), |i: int| bit_at(self.reads, i) || bit_at(other.reads, i)),
            writes: Seq::new(max_len(self.writes.len(), other.writes.len()), |i: int| bit_at(self.writes, i) || bit_at(other.writes, i)),
        }
    }
}

/// The larger of `a` and `b`.
pub open spec fn max_len(a: nat, b: nat) -> nat {
    if a < b { b } else { a }
}

/// Tracks read and write accesses to a data structure, one bit per element.
#[derive(Debug)]
pub struct Access {
    readen_elements: Bits,
    written_elements: Bits,
}

impl View for Access {
    type V = AccessView;

    closed spec fn view(&self) -> AccessView {
        AccessView { reads: self.readen_elements@, writes: self.written_elements@ }
    }
}

impl Clone for Access {
    fn clone(&self) -> (res: Self)
        ensures
            res@ == self@,
    {
        Access { readen_elements: self.readen_elements.duplicate(), written_elements: self.written_elements.duplicate() }
    }
}

impl Default for Access {
    fn default() -> (res: Self)
        ensures
            res@.reads == Seq::<bool>::empty(),
            res@.writes == Seq::<bool>::empty(),
    {
        Access { readen_elements: Bits::new(), written_elements: Bits::new() }
    }
}

impl Access {
    /// Records a read of element `index`.
    pub fn add_read(&mut self, index: usize)
        requires
            old(self)@.reads.len() + index + 1 <= max_bits(),
        ensures
            final(self)@ == old(self)@.after_add_read(index as nat),
            forall|i: int| #[trigger] bit_at(final(self)@.reads, i) == (i == index || bit_at(old(self)@.reads, i)),
            forall|i: int| #[trigger] bit_at(final(self)@.writes, i) == bit_at(old(self)@.writes, i),
    {
        let grown = self.readen_elements.len() + index + 1;
        self.readen_elements.resize(grown, false);
        if self.written_elements.len() < grown {
            self.written_elements.resize(grown, false);
        }
        self.readen_elements.set(index, true);
        proof {
            assert(self@.reads =~= old(self)@.after_add_read(index as nat).reads);
            assert(self@.writes =~= old(self)@.after_add_read(index as nat).writes);
        }
    }

    /// Records a write of element `index`, which is also a read.
    pub fn add_write(&mut self, index: usize)
        requires
            old(self)@.reads.len() + index + 1 <= max_bits(),
        ensures
            final(self)@ == old(self)@.after_add_write(index as nat),
            forall|i: int| #[trigger] bit_at(final(self)@.reads, i) == (i == index || bit_at(old(self)@.reads, i)),
            forall|i: int| #[trigger] bit_at(final(self)@.writes, i) == (i == index || bit_at(old(self)@.writes, i)),
    {
        let grown = self.readen_elements.len() + index + 1;
        self.readen_elements.resize(grown, false);
        if self.written_elements.len() < grown {
            self.written_elements.resize(grown, false);
        }
        self.readen_elements.set(index, true);
        self.written_elements.set(index, true);
        proof {
            assert(self@.reads =~= old(self)@.after_add_write(index as nat).reads);
            assert(self@.writes =~= old(self)@.after_add_write(index as nat).writes);
        }
    }

    /// Forgets every access.
    pub fn clear(&mut self)
        ensures
            final(self)@.reads == Seq::<bool>::empty(),
            final(self)@.writes == Seq::<bool>::empty(),
    {
        self.readen_elements.clear();
        self.written_elements.clear();
    }

    /// Adds the accesses of `other`: every bit set on either side is set, and each bit
    /// sequence grows to the longer of the two.
    pub fn union(&mut self, other: &Self)
        ensures
            final(self)@ == old(self)@.after_union(other@),
            forall|i: int| #[trigger] bit_at(final(self)@.reads, i) == (bit_at(old(self)@.reads, i) || bit_at(other@.reads, i)),
            forall|i: int| #[trigger] bit_at(final(self)@.writes, i) == (bit_at(old(self)@.writes, i) || bit_at(other@.writes, i)),
    {
        let other_reads = other.readen_elements.len();
        if self.readen_elements.len() < other_reads {
            self.readen_elements.resize(other_reads, false);
        }
        let other_writes = other.written_elements.len();
        if self.written_elements.len() < other_writes {
            self.written_elements.resize(other_writes, false);
        }
        self.readen_elements.or_assign(&other.readen_elements);
        self.written_elements.or_assign(&other.written_elements);
        proof {
            assert(self@.reads =~= old(self)@.after_union(other@).reads);
            assert(self@.writes =~= old(self)@.after_union(other@).writes);
        }
    }

    /// Whether no element read by one side is written by the other.
    pub fn is_disjoint(&self, other: &Self) -> (res: bool)
        ensures
            res == self@.is_disjoint(other@),
    {
        let first = Self::no_common_bit(&self.readen_elements, &other.written_elements);
        let second = Self::no_common_bit(&self.written_elements, &other.readen_elements);
        assert(self@.reads == self.readen_elements@ && other@.writes == other.written_elements@);
        assert(self@.writes == self.written_elements@ && other@.reads == other.readen_elements@);
        first && second
    }

    /// Whether no index has its bit set in both `a` and `b`.
    fn no_common_bit(a: &Bits, b: &Bits) -> (res: bool)
        ensures
            res == forall|i: int| !(#[trigger] bit_at(a@, i) && bit_at(b@, i)),
    {
        let a_len = a.len();
        let b_len = b.len();
        let len = if a_len < b_len { a_len } else { b_len };
        let mut i: usize = 0;
        while i < len
            invariant
                i <= len,
                len <= a@.len(),
                len <= b@.len(),
                len == a@.len() || len == b@.len(),
                forall|j: int| 0 <= j < i ==> !(#[trigger] bit_at(a@, j) && bit_at(b@, j)),
            decreases len - i,
        {
            if a.get(i) && b.get(i) {
                assert(bit_at(a@, i as int) && bit_at(b@, i as int));
                return false;
            }
            i = i + 1;
        }
        proof {
            assert forall|j: int| !(#[trigger] bit_at(a@, j) && bit_at(b@, j)) by {
                if 0 <= j < i {
                } else {
                    assert(!(0 <= j < a@.len()) || !(0 <= j < b@.len()));
                }
            }
        }
        true
    }

    /// Brings both bit sequences to `new_len` bits, cutting or padding with unset bits.
    pub fn resize(&mut self, new_len: usize)
        requires
            new_len <= max_bits(),
        ensures
            final(self)@ == old(self)@.resized(new_len as nat),
    {
        self.readen_elements.resize(new_len, false);
        self.written_elements.resize(new_len, false);
        proof {
            assert(self@.reads =~= old(self)@.resized(new_len as nat).reads);
            assert(self@.writes =~= old(self)@.resized(new_len as nat).writes);
        }
    }

    /// Grows both bit sequences to `len() + additional + 1` bits.
    pub fn grow(&mut self, additional: usize)
        requires
            old(self)@.reads.len() + additional + 1 <= max_bits(),
        ensures
            final(self)@ == old(self)@.resized((old(self)@.reads.len() + additional + 1) as nat),
    {
        let len = self.len();
        self.resize(len + additional + 1)
    }

    /// The number of tracked elements: the length of the read bits.
    pub fn len(&self) -> (res: usize)
        ensures
            res == self@.reads.len(),
            res <= max_bits(),
    {
        self.readen_elements.len()
    }

    /// Whether element `index` is read.
    pub fn has_read(&self, index: usize) -> (res: bool)
        requires
            index < self@.reads.len(),
        ensures
            res == self@.reads[index as int],
    {
        self.readen_elements.get(index)
    }

    /// Whether element `index` is written.
    pub fn has_write(&self, index: usize) -> (res: bool)
        requires
            index < self@.writes.len(),
        ensures
            res == self@.writes[index as int],
    {
        self.written_elements.get(index)
    }
}

/// Disjointness of accesses does not depend on the order of the two sides.
pub proof fn lemma_is_disjoint_symmetric(a: AccessView, b: AccessView)
    ensures
        a.is_disjoint(b) == b.is_disjoint(a),
{
}

} // verus!
