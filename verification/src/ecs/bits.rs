//! Growable bit sequences, stored in a `bitvec` bit vector.
use vstd::prelude::*;
use bitvec::vec::BitVec;

verus! {

/// A growable sequence of bits held in a `bitvec::vec::BitVec` (`usize` words, least
/// significant bit first). Verus sees the bits only through [`bits`].
#[verifier::external_body]
#[derive(Debug)]
pub struct Bits {
    inner: BitVec,
}

/// The bits held, in index order.
pub uninterp spec fn bits(v: Bits) -> Seq<bool>;

impl View for Bits {
    type V = Seq<bool>;

    open spec fn view(&self) -> Seq<bool> {
        bits(*self)
    }
}

/// The largest number of bits a bit vector can hold (`BitSlice::MAX_BITS`, the word
/// size's maximum shifted right by three); asking for more panics.
pub open spec fn max_bits() -> int {
    (usize::MAX / 8) as int
}

/// The indices of the set bits of `s`, in increasing order.
pub open spec fn ones_of(s: Seq<bool>) -> Seq<usize>
    decreases s.len(),
{
    if s.len() == 0 {
        Seq::empty()
    } else if s.last() {
        ones_of(s.drop_last()).push((s.len() - 1) as usize)
    } else {
        ones_of(s.drop_last())
    }
}

/// The indices that `ones_of` lists are exactly the set bits, each once, increasing.
pub proof fn lemma_ones_of(s: Seq<bool>)
    requires
        s.len() <= usize::MAX,
    ensures
        forall|k: int| 0 <= k < ones_of(s).len() ==> #[trigger] ones_of(s)[k] < s.len() && s[ones_of(s)[k] as int],
        forall|k: int, l: int| 0 <= k < l < ones_of(s).len() ==> #[trigger] ones_of(s)[k] < #[trigger] ones_of(s)[l],
        forall|i: int| 0 <= i < s.len() ==> (#[trigger] s[i] <==> ones_of(s).contains(i as usize)),
        ones_of(s).len() <= s.len(),
    decreases s.len(),
{
    if s.len() > 0 {
        let rest = s.drop_last();
        lemma_ones_of(rest);
        let o = ones_of(s);
        let r = ones_of(rest);
        assert forall|i: int| 0 <= i < s.len() implies (#[trigger] s[i] <==> o.contains(i as usize)) by {
            if i < s.len() - 1 {
                assert(s[i] == rest[i]);
                if r.contains(i as usize) {
                    let k = choose|k: int| 0 <= k < r.len() && r[k] == i as usize;
                    assert(o[k] == i as usize);
                }
                if o.contains(i as usize) {
                    let k = choose|k: int| 0 <= k < o.len() && o[k] == i as usize;
                    if k < r.len() {
                        assert(r[k] == i as usize);
                    }
                }
            } else {
                if s.last() {
                    assert(o[r.len() as int] == i as usize);
                } else {
                    if o.contains(i as usize) {
                        let k = choose|k: int| 0 <= k < o.len() && o[k] == i as usize;
                        assert(r[k] < rest.len());
                    }
                }
            }
        }
    }
}

impl Bits {
    /// `BitVec::new`: no bits.
    #[verifier::external_body]
    pub(crate) fn new() -> (res: Bits)
        ensures
            bits(res) == Seq::<bool>::empty(),
    {
        Bits { inner: BitVec::new() }
    }

    /// `BitVec::clone`: a vector holding the same bits.
    #[verifier::external_body]
    pub(crate) fn duplicate(&self) -> (res: Bits)
        ensures
            bits(res) == bits(*self),
    {
        Bits { inner: self.inner.clone() }
    }

    /// `BitVec::repeat`: `len` copies of `bit`.
    #[verifier::external_body]
    pub(crate) fn repeat(bit: bool, len: usize) -> (res: Bits)
        requires
            len <= max_bits(),
        ensures
            bits(res) == Seq::new(len as nat, |i: int| bit),
    {
        Bits { inner: BitVec::repeat(bit, len) }
    }

    /// `BitSlice::len`: the number of bits, never above [`max_bits`].
    #[verifier::external_body]
    pub(crate) fn len(&self) -> (res: usize)
        ensures
            res == bits(*self).len(),
            res <= max_bits(),
    {
        self.inner.len()
    }

    /// Indexing (`v[index]`), which panics out of bounds.
    #[verifier::external_body]
    pub(crate) fn get(&self, index: usize) -> (res: bool)
        requires
            index < bits(*self).len(),
        ensures
            res == bits(*self)[index as int],
    {
        self.inner[index]
    }

    /// `BitSlice::set`: writes bit `index`, which panics out of bounds.
    #[verifier::external_body]
    pub(crate) fn set(&mut self, index: usize, value: bool)
        requires
            index < bits(*old(self)).len(),
        ensures
            bits(*final(self)) == bits(*old(self)).update(index as int, value),
    {
        self.inner.set(index, value)
    }

    /// `BitVec::resize`: truncates to `new_len` bits, or extends with copies of `value`.
    #[verifier::external_body]
    pub(crate) fn resize(&mut self, new_len: usize, value: bool)
        requires
            new_len <= max_bits(),
        ensures
            bits(*final(self)) == if new_len <= bits(*old(self)).len() {
                bits(*old(self)).subrange(0, new_len as int)
            } else {
                bits(*old(self)) + Seq::new((new_len - bits(*old(self)).len()) as nat, |i: int| value)
            },
    {
        self.inner.resize(new_len, value)
    }

    /// `BitVec::clear`: removes every bit.
    #[verifier::external_body]
    pub(crate) fn clear(&mut self)
        ensures
            bits(*final(self)) == Seq::<bool>::empty(),
    {
        self.inner.clear()
    }

    /// `self |= other` (`BitOrAssign`): ors each bit of `self` with the bit of `other` at
    /// the same index, `other` read as unset past its end; the length of `self` stays.
    #[verifier::external_body]
    pub(crate) fn or_assign(&mut self, other: &Bits)
        ensures
            bits(*final(self)).len() == bits(*old(self)).len(),
            forall|i: int|
                0 <= i < bits(*old(self)).len() ==> #[trigger] bits(*final(self))[i] == (bits(*old(self))[i] || (i
                    < bits(*other).len() && bits(*other)[i])),
    {
        self.inner |= &other.inner;
    }

    /// `BitSlice::fill`: sets every bit to `value`.
    #[verifier::external_body]
    pub(crate) fn fill(&mut self, value: bool)
        ensures
            bits(*final(self)) == Seq::new(bits(*old(self)).len(), |i: int| value),
    {
        self.inner.fill(value)
    }

    /// `BitSlice::all`: whether every bit is set (true when there is none).
    #[verifier::external_body]
    pub(crate) fn all(&self) -> (res: bool)
        ensures
            res == forall|i: int| 0 <= i < bits(*self).len() ==> #[trigger] bits(*self)[i],
    {
        self.inner.all()
    }

    /// `BitSlice::iter_ones`: the indices of the set bits, in increasing order.
    #[verifier::external_body]
    pub(crate) fn iter_ones(&self) -> (res: Vec<usize>)
        ensures
            res@ == ones_of(bits(*self)),
    {
        self.inner.iter_ones().collect()
    }
}

} // verus!
