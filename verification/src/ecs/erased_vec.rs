//! A vector of fixed-size byte blobs, one per element, whose element type is known
//! only by its size and alignment.
use vstd::prelude::*;
use vstd::layout::valid_layout;

verus! {

/// Size and alignment of an element type.
#[derive(Copy, Clone, PartialEq, Eq, Structural, Debug)]
pub struct TypeInfo {
    pub size: usize,
    pub align: usize,
}

impl TypeInfo {
    /// Size and alignment of `T`.
    pub fn new<T>() -> (res: Self)
        ensures
            res.size as nat == vstd::layout::size_of::<T>(),
            res.align as nat == vstd::layout::align_of::<T>(),
    {
        TypeInfo { size: core::mem::size_of::<T>(), align: core::mem::align_of::<T>() }
    }

    /// Whether a buffer of `count` elements has a valid memory layout.
    pub open spec fn fits(self, count: int) -> bool {
        self.size * count <= usize::MAX && valid_layout((self.size * count) as usize, self.align)
    }

    /// Whether a first element can be stored: nothing to allocate for a zero-sized type,
    /// else a valid layout for one element.
    pub fn first_element_fits(&self) -> (res: bool)
        ensures
            res == (self.size == 0 || self.fits(1)),
    {
        self.size == 0 || layout_is_valid(self.size, self.align)
    }
}

/// A vector whose elements are byte blobs of `type_info.size` bytes.
/// Zero-sized elements never need room: the capacity is then unbounded.
pub struct TypeErasedVec {
    type_info: TypeInfo,
    capacity: usize,
    data: Vec<Vec<u8>>,
}

impl TypeErasedVec {
    pub closed spec fn view(&self) -> Seq<Seq<u8>> {
        self.data@.map_values(|e: Vec<u8>| e@)
    }

    pub closed spec fn spec_type_info(&self) -> TypeInfo {
        self.type_info
    }

    pub closed spec fn spec_capacity(&self) -> nat {
        self.capacity as nat
    }

    pub closed spec fn wf(&self) -> bool {
        &&& self.data@.len() <= self.capacity
        &&& forall|i: int| 0 <= i < self.data@.len() ==> #[trigger] self.data@[i]@.len() == self.type_info.size
        &&& self.type_info.size == 0 ==> self.capacity == usize::MAX
    }

    /// Whether one more element can be pushed without an invalid layout.
    pub open spec fn can_push(&self) -> bool {
        self.view().len() < self.spec_capacity() || self.spec_type_info().size != 0 && self.spec_type_info().fits(self.view().len() + 1 as int)
    }

    /// An empty vector; zero-sized element types get an unbounded capacity.
    pub fn new(type_info: TypeInfo) -> (res: Self)
        ensures
            res.wf(),
            res.view() == Seq::<Seq<u8>>::empty(),
            res.spec_type_info() == type_info,
            res.spec_capacity() == if type_info.size == 0 { usize::MAX as nat } else { 0 },
    {
        let res = if type_info.size == 0 {
            TypeErasedVec { type_info, capacity: usize::MAX, data: Vec::new() }
        } else {
            TypeErasedVec { type_info, capacity: 0, data: Vec::new() }
        };
        assert(res.view() =~= Seq::<Seq<u8>>::empty());
        res
    }

    pub fn len(&self) -> (res: usize)
        ensures
            res == self.view().len(),
    {
        self.data.len()
    }

    pub fn type_info(&self) -> (res: TypeInfo)
        ensures
            res == self.spec_type_info(),
    {
        self.type_info
    }

    /// Grow the capacity by exactly `additional` elements.
    fn grow_exact(&mut self, additional: usize)
        requires
            old(self).wf(),
            old(self).spec_type_info().size != 0,
            old(self).spec_type_info().fits(old(self).spec_capacity() + additional as int),
        ensures
            final(self).wf(),
            final(self).view() == old(self).view(),
            final(self).spec_type_info() == old(self).spec_type_info(),
            final(self).spec_capacity() == old(self).spec_capacity() + additional,
    {
        proof {
            vstd::arithmetic::mul::lemma_mul_inequality(1, self.type_info.size as int, (self.capacity + additional) as int);
            vstd::arithmetic::mul::lemma_mul_is_commutative(self.type_info.size as int, (self.capacity + additional) as int);
        }
        self.capacity = self.capacity + additional;
    }

    /// Make room for `additional` more elements, growing the capacity exactly as needed.
    pub fn reserve_exact(&mut self, additional: usize)
        requires
            old(self).wf(),
            old(self).view().len() + additional <= old(self).spec_capacity()
                || old(self).spec_type_info().size != 0 && old(self).spec_type_info().fits(old(self).view().len() + additional as int),
        ensures
            final(self).wf(),
            final(self).view() == old(self).view(),
            final(self).spec_type_info() == old(self).spec_type_info(),
            final(self).spec_capacity() == if old(self).view().len() + additional <= old(self).spec_capacity() {
                old(self).spec_capacity()
            } else {
                (old(self).view().len() + additional) as nat
            },
    {
        let available = self.capacity - self.data.len();
        if available < additional {
            let grow = additional - available;
            self.grow_exact(grow);
        }
    }

    /// Whether one more element can be pushed without an invalid layout.
    pub fn can_push_value(&self) -> (res: bool)
        requires
            self.wf(),
        ensures
            res == self.can_push(),
    {
        if self.data.len() < self.capacity {
            return true;
        }
        if self.type_info.size == 0 {
            return false;
        }
        if self.data.len() == usize::MAX {
            assert(self.type_info.size * (usize::MAX + 1) > usize::MAX) by (nonlinear_arith)
                requires
                    self.type_info.size >= 1;
            return false;
        }
        let count = self.data.len() + 1;
        match self.type_info.size.checked_mul(count) {
            Some(bytes) => layout_is_valid(bytes, self.type_info.align),
            None => false,
        }
    }

    /// Append a copy of `value`.
    pub fn push(&mut self, value: &[u8])
        requires
            old(self).wf(),
            value@.len() == old(self).spec_type_info().size,
            old(self).can_push(),
        ensures
            final(self).wf(),
            final(self).view() == old(self).view().push(value@),
            final(self).spec_type_info() == old(self).spec_type_info(),
            final(self).spec_capacity() == if old(self).view().len() + 1 <= old(self).spec_capacity() {
                old(self).spec_capacity()
            } else {
                (old(self).view().len() + 1) as nat
            },
    {
        self.reserve_exact(1);
        let v = copy_bytes(value);
        self.data.push(v);
        assert(self.view() =~= old(self).view().push(value@));
    }

    /// Remove the element at `index`, moving the last element into its place; the removed
    /// element is handed back, for the caller to drop once.
    pub fn swap_remove(&mut self, index: usize) -> (removed: Vec<u8>)
        requires
            old(self).wf(),
            index < old(self).view().len(),
        ensures
            removed@ == old(self).view()[index as int],
            final(self).wf(),
            final(self).view() == old(self).view().update(index as int, old(self).view().last()).drop_last(),
            final(self).spec_type_info() == old(self).spec_type_info(),
            final(self).spec_capacity() == old(self).spec_capacity(),
    {
        let ghost d = self.data@;
        let removed = self.data.swap_remove(index);
        assert(self.view() =~= old(self).view().update(index as int, old(self).view().last()).drop_last());
        removed
    }

    /// The bytes of element `index`.
    pub fn get(&self, index: usize) -> (res: &Vec<u8>)
        requires
            index < self.view().len(),
        ensures
            res@ == self.view()[index as int],
    {
        &self.data[index]
    }

    /// Overwrite element `index` with `value`.
    pub fn write(&mut self, index: usize, value: &[u8])
        requires
            old(self).wf(),
            index < old(self).view().len(),
            value@.len() == old(self).spec_type_info().size,
        ensures
            final(self).wf(),
            final(self).view() == old(self).view().update(index as int, value@),
            final(self).spec_type_info() == old(self).spec_type_info(),
            final(self).spec_capacity() == old(self).spec_capacity(),
    {
        let v = copy_bytes(value);
        self.data.set(index, v);
        assert(self.view() =~= old(self).view().update(index as int, value@));
    }

    /// Remove every element, keeping the capacity.
    pub fn clear(&mut self)
        requires
            old(self).wf(),
        ensures
            final(self).wf(),
            final(self).view() == Seq::<Seq<u8>>::empty(),
            final(self).spec_type_info() == old(self).spec_type_info(),
            final(self).spec_capacity() == old(self).spec_capacity(),
    {
        self.data.clear();
        assert(self.view() =~= Seq::<Seq<u8>>::empty());
    }
}

/// Whether `n` is a power of two.
fn is_power_of_two(n: usize) -> (res: bool)
    ensures
        res == vstd::arithmetic::power2::is_pow2(n as int),
{
    reveal(vstd::arithmetic::power2::is_pow2);
    let mut m = n;
    while m > 1
        invariant
            vstd::arithmetic::power2::is_pow2(n as int) == vstd::arithmetic::power2::is_pow2(m as int),
        decreases m,
    {
        proof {
            reveal(vstd::arithmetic::power2::is_pow2);
            assert(vstd::arithmetic::power2::is_pow2(m as int)
                == (m % 2 == 0 && vstd::arithmetic::power2::is_pow2((m / 2) as int)));
        }
        if m % 2 != 0 {
            return false;
        }
        m = m / 2;
    }
    proof {
        reveal(vstd::arithmetic::power2::is_pow2);
    }
    m == 1
}

/// Whether `size` bytes aligned to `align` form a valid memory layout: `align` is a
/// power of two and `size` rounded up to `align` does not exceed `isize::MAX`.
fn layout_is_valid(size: usize, align: usize) -> (res: bool)
    ensures
        res == valid_layout(size, align),
{
    if !is_power_of_two(align) {
        return false;
    }
    proof {
        reveal(vstd::arithmetic::power2::is_pow2);
    }
    let max = isize::MAX as usize;
    assert(max % align <= max) by (nonlinear_arith)
        requires
            align > 0;
    size <= max - max % align
}

/// A call on a type-erased vector, as it stands in a history.
pub enum ErasedVecOp {
    Push(Seq<u8>),
    SwapRemove(int),
    Write(int, Seq<u8>),
    Clear,
}

/// What a type-erased vector holds: its element type and its elements.
pub struct ErasedVecState {
    pub type_info: TypeInfo,
    pub elements: Seq<Seq<u8>>,
}

/// `op` can be made on `s`: what the call's precondition asks of the elements.
pub open spec fn erased_op_allowed(s: ErasedVecState, op: ErasedVecOp) -> bool {
    match op {
        ErasedVecOp::Push(v) => v.len() == s.type_info.size,
        ErasedVecOp::SwapRemove(i) => 0 <= i < s.elements.len(),
        ErasedVecOp::Write(i, v) => 0 <= i < s.elements.len() && v.len() == s.type_info.size,
        ErasedVecOp::Clear => true,
    }
}

/// The state after `op`, as the call's contract gives it.
pub open spec fn after_erased_op(s: ErasedVecState, op: ErasedVecOp) -> ErasedVecState {
    match op {
        ErasedVecOp::Push(v) => ErasedVecState { elements: s.elements.push(v), ..s },
        ErasedVecOp::SwapRemove(i) => ErasedVecState {
            elements: s.elements.update(i, s.elements.last()).drop_last(),
            ..s
        },
        ErasedVecOp::Write(i, v) => ErasedVecState { elements: s.elements.update(i, v), ..s },
        ErasedVecOp::Clear => ErasedVecState { elements: Seq::empty(), ..s },
    }
}

/// The state after the calls of `ops`, in order, where each is allowed; `None` once one
/// is not.
pub open spec fn after_erased_ops(s: ErasedVecState, ops: Seq<ErasedVecOp>) -> Option<ErasedVecState>
    decreases ops.len(),
{
    if ops.len() == 0 {
        Some(s)
    } else {
        match after_erased_ops(s, ops.drop_last()) {
            Some(t) => if erased_op_allowed(t, ops.last()) { Some(after_erased_op(t, ops.last())) } else { None },
            None => None,
        }
    }
}

/// From a new vector of element type `type_info`, any allowed sequence of pushes,
/// swap-removes, writes and clears keeps the element type, and every element has its
/// size.
pub proof fn lemma_erased_ops_keep_type(type_info: TypeInfo, ops: Seq<ErasedVecOp>)
    requires
        after_erased_ops(ErasedVecState { type_info, elements: Seq::empty() }, ops) is Some,
    ensures
        after_erased_ops(ErasedVecState { type_info, elements: Seq::empty() }, ops)->0.type_info == type_info,
        forall|i: int| 0 <= i < after_erased_ops(ErasedVecState { type_info, elements: Seq::empty() }, ops)->0.elements.len()
            ==> (#[trigger] after_erased_ops(ErasedVecState { type_info, elements: Seq::empty() }, ops)->0.elements[i]).len() == type_info.size,
    decreases ops.len(),
{
    if ops.len() > 0 {
        lemma_erased_ops_keep_type(type_info, ops.drop_last());
        let t = after_erased_ops(ErasedVecState { type_info, elements: Seq::empty() }, ops.drop_last())->0;
        let u = after_erased_op(t, ops.last());
        assert forall|i: int| 0 <= i < u.elements.len() implies (#[trigger] u.elements[i]).len() == type_info.size by {
            match ops.last() {
                ErasedVecOp::Push(v) => {
                    if i < t.elements.len() {
                        assert(u.elements[i] == t.elements[i]);
                    }
                },
                ErasedVecOp::SwapRemove(j) => {
                    if i == j {
                        assert(u.elements[i] == t.elements.last());
                    } else {
                        assert(u.elements[i] == t.elements[i]);
                    }
                },
                ErasedVecOp::Write(j, v) => {
                    if i != j {
                        assert(u.elements[i] == t.elements[i]);
                    }
                },
                ErasedVecOp::Clear => {},
            }
        }
    }
}

/// A copy of `value`.
pub fn copy_bytes(value: &[u8]) -> (res: Vec<u8>)
    ensures
        res@ == value@,
{
    let mut res: Vec<u8> = Vec::new();
    let mut i: usize = 0;
    while i < value.len()
        invariant
            i <= value@.len(),
            res@ == value@.subrange(0, i as int),
        decreases value@.len() - i,
    {
        res.push(value[i]);
        i = i + 1;
    }
    assert(value@.subrange(0, value@.len() as int) =~= value@);
    res
}

} // verus!
