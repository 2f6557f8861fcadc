//! The data side of the job system: how parallel iteration splits its work, the
//! producers that hand out the items of each part, and the slots of the per-thread
//! job allocators. Threads, queues and the running of jobs stay with the caller.
use vstd::prelude::*;

verus! {

/// `num_cpus::get`: the number of logical CPUs available, which its documentation
/// promises is at least one. The number depends on the machine, so nothing else is
/// stated of it.
#[verifier::external_body]
pub(crate) fn cpu_count() -> (res: usize)
    ensures
        res >= 1,
{
    num_cpus::get()
}

/// How many more times parallel work may be split in two.
#[derive(Copy, Clone, Debug)]
pub struct Splitter {
    splits: usize,
    min_splits: usize,
}

impl Splitter {
    /// The remaining number of splits.
    pub closed spec fn splits_view(&self) -> usize {
        self.splits
    }

    /// The number of splits under which work is no longer split.
    pub closed spec fn min_splits_view(&self) -> usize {
        self.min_splits
    }

    /// The splitter for `cpus` CPUs: one split per CPU, down to a single one.
    pub fn for_cpus(cpus: usize) -> (res: Self)
        ensures
            res.splits_view() == cpus,
            res.min_splits_view() == 1,
    {
        Splitter { splits: cpus, min_splits: 1 }
    }

    /// Halves the number of splits if it is above the minimum; whether it was.
    pub fn try_split(&mut self) -> (res: bool)
        ensures
            res == (old(self).splits_view() > old(self).min_splits_view()),
            final(self).min_splits_view() == old(self).min_splits_view(),
            final(self).splits_view() == if res { old(self).splits_view() / 2 } else { old(self).splits_view() },
    {
        if self.splits > self.min_splits {
            self.splits = self.splits / 2;
            true
        } else {
            false
        }
    }
}

impl Default for Splitter {
    /// The splitter for the CPUs of this machine (see `for_cpus`).
    fn default() -> (res: Self)
        ensures
            res.splits_view() >= 1,
            res.min_splits_view() == 1,
    {
        Self::for_cpus(cpu_count())
    }
}

/// Hands out items in order and can be cut in two at any position; each part of
/// parallel work gets one producer.
pub trait Producer: Sized {
    type Item;

    /// The items, in the order they are handed out.
    spec fn items(&self) -> Seq<Self::Item>;

    /// The producer's own rules hold.
    spec fn wf(&self) -> bool;

    /// The number of items.
    fn len(&self) -> (res: usize)
        requires
            self.wf(),
        ensures
            res == self.items().len(),
    ;

    /// The items before `index` and the items from `index` on.
    fn split_at(self, index: usize) -> (res: (Self, Self))
        requires
            self.wf(),
            index <= self.items().len(),
        ensures
            res.0.wf(),
            res.1.wf(),
            res.0.items() == self.items().take(index as int),
            res.1.items() == self.items().skip(index as int),
    ;

    /// Hands out every item.
    fn into_items(self) -> (res: Vec<Self::Item>)
        requires
            self.wf(),
        ensures
            res@ == self.items(),
    ;
}

/// Hands out references to the elements of a slice.
pub struct IterProducer<'s, T> {
    slice: &'s [T],
}

impl<'s, T> IterProducer<'s, T> {
    /// A producer of the elements of `slice`.
    pub fn new(slice: &'s [T]) -> (res: Self)
        ensures
            res.items().unref() == slice@,
            res.items().len() == slice@.len(),
            res.wf(),
    {
        IterProducer { slice }
    }
}

impl<'s, T> Producer for IterProducer<'s, T> {
    type Item = &'s T;

    closed spec fn items(&self) -> Seq<&'s T> {
        self.slice@.as_ref()
    }

    closed spec fn wf(&self) -> bool {
        true
    }

    fn len(&self) -> (res: usize) {
        self.slice.len()
    }

    fn split_at(self, index: usize) -> (res: (Self, Self)) {
        let (left, right) = self.slice.split_at(index);
        assert(left@.as_ref() =~= self.slice@.as_ref().take(index as int));
        assert(right@.as_ref() =~= self.slice@.as_ref().skip(index as int));
        (IterProducer { slice: left }, IterProducer { slice: right })
    }

    fn into_items(self) -> (res: Vec<&'s T>) {
        let mut items: Vec<&'s T> = Vec::new();
        let mut i: usize = 0;
        while i < self.slice.len()
            invariant
                i <= self.slice@.len(),
                items@ == self.slice@.as_ref().take(i as int),
            decreases self.slice@.len() - i,
        {
            items.push(&self.slice[i]);
            i = i + 1;
            assert(items@ =~= self.slice@.as_ref().take(i as int));
        }
        assert(self.slice@.as_ref().take(i as int) =~= self.slice@.as_ref());
        items
    }
}

/// Takes every item of `v`, in order.
fn drain_in_order<T>(v: Vec<T>) -> (res: Vec<T>)
    ensures
        res@ == v@,
{
    let mut v = v;
    let mut reversed: Vec<T> = Vec::new();
    let ghost initial = v@;
    while v.len() > 0
        invariant
            v@.len() + reversed@.len() == initial.len(),
            v@ == initial.take(v@.len() as int),
            forall|k: int| 0 <= k < reversed@.len() ==> #[trigger] reversed@[k] == initial[initial.len() - 1 - k],
        decreases v@.len(),
    {
        let x = v.pop().unwrap();
        reversed.push(x);
        assert(v@ =~= initial.take(v@.len() as int));
    }
    let mut res: Vec<T> = Vec::new();
    while reversed.len() > 0
        invariant
            res@.len() + reversed@.len() == initial.len(),
            res@ == initial.take(res@.len() as int),
            forall|k: int| 0 <= k < reversed@.len() ==> #[trigger] reversed@[k] == initial[initial.len() - 1 - k],
        decreases reversed@.len(),
    {
        let x = reversed.pop().unwrap();
        res.push(x);
        assert(res@ =~= initial.take(res@.len() as int));
    }
    assert(initial.take(initial.len() as int) =~= initial);
    res
}

/// Hands out the items of `producer` with their position, counted from `offset`.
pub struct EnumerateProducer<P> {
    producer: P,
    offset: usize,
}

impl<P: Producer> EnumerateProducer<P> {
    /// Positions counted from zero.
    pub fn new(producer: P) -> (res: Self)
        requires
            producer.wf(),
            producer.items().len() <= usize::MAX,
        ensures
            res.wf(),
            res.items() == Seq::new(producer.items().len(), |k: int| (k as usize, producer.items()[k])),
    {
        EnumerateProducer { producer, offset: 0 }
    }
}

impl<P: Producer> Producer for EnumerateProducer<P> {
    type Item = (usize, P::Item);

    closed spec fn items(&self) -> Seq<(usize, P::Item)> {
        Seq::new(self.producer.items().len(), |k: int| ((self.offset + k) as usize, self.producer.items()[k]))
    }

    closed spec fn wf(&self) -> bool {
        &&& self.producer.wf()
        &&& self.offset + self.producer.items().len() <= usize::MAX
    }

    fn len(&self) -> (res: usize) {
        self.producer.len()
    }

    fn split_at(self, index: usize) -> (res: (Self, Self)) {
        let ghost items = self.items();
        let ghost inner = self.producer.items();
        let offset = self.offset;
        let (left, right) = self.producer.split_at(index);
        let res = (EnumerateProducer { producer: left, offset }, EnumerateProducer { producer: right, offset: offset + index });
        assert(res.0.items() =~= items.take(index as int));
        assert(res.1.items() =~= items.skip(index as int));
        res
    }

    fn into_items(self) -> (res: Vec<(usize, P::Item)>) {
        let ghost target = self.items();
        let offset = self.offset;
        let items = self.producer.into_items();
        let mut reversed: Vec<(usize, P::Item)> = Vec::new();
        let mut items = items;
        let ghost initial = items@;
        while items.len() > 0
            invariant
                initial.len() == target.len(),
                offset + initial.len() <= usize::MAX,
                forall|k: int| 0 <= k < target.len() ==> #[trigger] target[k] == ((offset + k) as usize, initial[k]),
                items@.len() + reversed@.len() == initial.len(),
                items@ == initial.take(items@.len() as int),
                forall|k: int| 0 <= k < reversed@.len() ==> #[trigger] reversed@[k] == target[initial.len() - 1 - k],
            decreases items@.len(),
        {
            let n = items.len();
            let x = items.pop().unwrap();
            reversed.push((offset + (n - 1), x));
            assert(items@ =~= initial.take(items@.len() as int));
        }
        let mut res: Vec<(usize, P::Item)> = Vec::new();
        while reversed.len() > 0
            invariant
                initial.len() == target.len(),
                res@.len() + reversed@.len() == initial.len(),
                res@ == target.take(res@.len() as int),
                forall|k: int| 0 <= k < reversed@.len() ==> #[trigger] reversed@[k] == target[initial.len() - 1 - k],
            decreases reversed@.len(),
        {
            let x = reversed.pop().unwrap();
            res.push(x);
            assert(res@ =~= target.take(res@.len() as int));
        }
        assert(target.take(target.len() as int) =~= target);
        res
    }
}

/// Hands out the items of two producers in pairs, as long as both have items.
pub struct ZipProducer<A, B> {
    a: A,
    b: B,
}

/// The pairs of the items of `a` and `b`, up to the shorter of the two.
pub open spec fn zipped<X, Y>(a: Seq<X>, b: Seq<Y>) -> Seq<(X, Y)> {
    let len = if a.len() < b.len() { a.len() } else { b.len() };
    Seq::new(len, |k: int| (a[k], b[k]))
}

impl<A: Producer, B: Producer> ZipProducer<A, B> {
    /// The pairs of the items of `a` and `b`.
    pub fn new(a: A, b: B) -> (res: Self)
        requires
            a.wf(),
            b.wf(),
        ensures
            res.wf(),
            res.items() == zipped(a.items(), b.items()),
    {
        ZipProducer { a, b }
    }
}

impl<A: Producer, B: Producer> Producer for ZipProducer<A, B> {
    type Item = (A::Item, B::Item);

    closed spec fn items(&self) -> Seq<(A::Item, B::Item)> {
        zipped(self.a.items(), self.b.items())
    }

    closed spec fn wf(&self) -> bool {
        self.a.wf() && self.b.wf()
    }

    fn len(&self) -> (res: usize) {
        let a = self.a.len();
        let b = self.b.len();
        if a < b { a } else { b }
    }

    fn split_at(self, index: usize) -> (res: (Self, Self)) {
        let ghost items = self.items();
        let (a_left, a_right) = self.a.split_at(index);
        let (b_left, b_right) = self.b.split_at(index);
        let res = (ZipProducer { a: a_left, b: b_left }, ZipProducer { a: a_right, b: b_right });
        assert(res.0.items() =~= items.take(index as int));
        assert(res.1.items() =~= items.skip(index as int));
        res
    }

    fn into_items(self) -> (res: Vec<(A::Item, B::Item)>) {
        let ghost target = self.items();
        let mut a = drain_in_order(self.a.into_items());
        let mut b = drain_in_order(self.b.into_items());
        let ghost a0 = a@;
        let ghost b0 = b@;
        let len = if a.len() < b.len() { a.len() } else { b.len() };
        a.truncate(len);
        b.truncate(len);
        let mut reversed: Vec<(A::Item, B::Item)> = Vec::new();
        while a.len() > 0
            invariant
                target == zipped(a0, b0),
                len == target.len(),
                a@.len() == b@.len(),
                a@.len() + reversed@.len() == len,
                a@ == a0.take(a@.len() as int),
                b@ == b0.take(b@.len() as int),
                forall|k: int| 0 <= k < reversed@.len() ==> #[trigger] reversed@[k] == target[len - 1 - k],
            decreases a@.len(),
        {
            let x = a.pop().unwrap();
            let y = b.pop().unwrap();
            reversed.push((x, y));
            assert(a@ =~= a0.take(a@.len() as int));
            assert(b@ =~= b0.take(b@.len() as int));
        }
        let mut res: Vec<(A::Item, B::Item)> = Vec::new();
        while reversed.len() > 0
            invariant
                len == target.len(),
                res@.len() + reversed@.len() == len,
                res@ == target.take(res@.len() as int),
                forall|k: int| 0 <= k < reversed@.len() ==> #[trigger] reversed@[k] == target[len - 1 - k],
            decreases reversed@.len(),
        {
            let x = reversed.pop().unwrap();
            res.push(x);
            assert(res@ =~= target.take(res@.len() as int));
        }
        assert(target.take(target.len() as int) =~= target);
        res
    }
}

/// An iterator whose items can be handed out by a producer, so that its work can be
/// split at any position.
pub trait IndexedParallelIterator: Sized {
    type Producer: Producer;

    /// The items, in order.
    spec fn items(&self) -> Seq<<Self::Producer as Producer>::Item>;

    /// The iterator's own rules hold.
    spec fn wf(&self) -> bool;

    /// The number of items.
    fn len(&self) -> (res: usize)
        requires
            self.wf(),
        ensures
            res == self.items().len(),
    ;

    /// The producer of the items.
    fn producer(self) -> (res: Self::Producer)
        requires
            self.wf(),
        ensures
            res.wf(),
            res.items() == self.items(),
    ;
}

/// Iterates over the elements of a slice.
pub struct Iter<'s, T> {
    slice: &'s [T],
}

impl<'s, T> Iter<'s, T> {
    /// An iterator over `slice`.
    pub fn new(slice: &'s [T]) -> (res: Self)
        ensures
            res.wf(),
            res.items().unref() == slice@,
            res.items().len() == slice@.len(),
    {
        Iter { slice }
    }
}

impl<'s, T> IndexedParallelIterator for Iter<'s, T> {
    type Producer = IterProducer<'s, T>;

    closed spec fn items(&self) -> Seq<&'s T> {
        self.slice@.as_ref()
    }

    closed spec fn wf(&self) -> bool {
        true
    }

    fn len(&self) -> (res: usize) {
        self.slice.len()
    }

    fn producer(self) -> (res: IterProducer<'s, T>) {
        IterProducer::new(self.slice)
    }
}

/// What can be turned into a parallel iterator.
pub trait IntoParallelIterator: Sized {
    type Iter: IndexedParallelIterator;

    /// The items of the iterator it becomes, in order.
    spec fn par_items(&self) -> Seq<<<Self::Iter as IndexedParallelIterator>::Producer as Producer>::Item>;

    /// The parallel iterator over its items.
    fn into_par_iter(self) -> (res: Self::Iter)
        ensures
            res.wf(),
            res.items() == self.par_items(),
    ;
}

impl<'s, T> IntoParallelIterator for &'s Vec<T> {
    type Iter = Iter<'s, T>;

    open spec fn par_items(&self) -> Seq<&'s T> {
        (**self)@.as_ref()
    }

    fn into_par_iter(self) -> (res: Iter<'s, T>) {
        let res = Iter::new(self.as_slice());
        assert(res.items() =~= self@.as_ref());
        res
    }
}

impl<'s, T> IntoParallelIterator for &'s [T] {
    type Iter = Iter<'s, T>;

    open spec fn par_items(&self) -> Seq<&'s T> {
        (**self)@.as_ref()
    }

    fn into_par_iter(self) -> (res: Iter<'s, T>) {
        let res = Iter::new(self);
        assert(res.items() =~= self@.as_ref());
        res
    }
}

/// Collections whose elements can be iterated over in parallel.
pub trait ParallelSlice<T> {
    /// The elements, in order.
    spec fn elements(&self) -> Seq<T>;

    /// A parallel iterator over references to the elements.
    fn par_iter(&self) -> (res: Iter<'_, T>)
        ensures
            res.wf(),
            res.items().unref() == self.elements(),
            res.items().len() == self.elements().len(),
    ;
}

impl<T> ParallelSlice<T> for Vec<T> {
    open spec fn elements(&self) -> Seq<T> {
        self@
    }

    fn par_iter(&self) -> (res: Iter<'_, T>) {
        self.into_par_iter()
    }
}

impl<T> ParallelSlice<T> for [T] {
    open spec fn elements(&self) -> Seq<T> {
        self@
    }

    fn par_iter(&self) -> (res: Iter<'_, T>) {
        self.into_par_iter()
    }
}

/// Iterates over the items of `iter` with their position.
pub struct Enumerate<I> {
    iter: I,
}

impl<I: IndexedParallelIterator> Enumerate<I> {
    /// The items of `iter`, each with its position.
    pub fn new(iter: I) -> (res: Self)
        requires
            iter.wf(),
        ensures
            res.wf(),
            res.items() == Seq::new(iter.items().len(), |k: int| (k as usize, iter.items()[k])),
    {
        Enumerate { iter }
    }
}

impl<I: IndexedParallelIterator> IndexedParallelIterator for Enumerate<I> {
    type Producer = EnumerateProducer<I::Producer>;

    closed spec fn items(&self) -> Seq<(usize, <I::Producer as Producer>::Item)> {
        Seq::new(self.iter.items().len(), |k: int| (k as usize, self.iter.items()[k]))
    }

    closed spec fn wf(&self) -> bool {
        self.iter.wf()
    }

    fn len(&self) -> (res: usize) {
        self.iter.len()
    }

    fn producer(self) -> (res: EnumerateProducer<I::Producer>) {
        // Asking for the length shows that the positions fit in a `usize`.
        let _len = self.iter.len();
        let producer = self.iter.producer();
        EnumerateProducer::new(producer)
    }
}

/// Iterates over the items of two iterators in pairs, as long as both have items.
pub struct Zip<A, B> {
    a: A,
    b: B,
}

impl<A: IndexedParallelIterator, B: IndexedParallelIterator> Zip<A, B> {
    /// The pairs of the items of `a` and `b`.
    pub fn new(a: A, b: B) -> (res: Self)
        requires
            a.wf(),
            b.wf(),
        ensures
            res.wf(),
            res.items() == zipped(a.items(), b.items()),
    {
        Zip { a, b }
    }
}

impl<A: IndexedParallelIterator, B: IndexedParallelIterator> IndexedParallelIterator for Zip<A, B> {
    type Producer = ZipProducer<A::Producer, B::Producer>;

    closed spec fn items(&self) -> Seq<(<A::Producer as Producer>::Item, <B::Producer as Producer>::Item)> {
        zipped(self.a.items(), self.b.items())
    }

    closed spec fn wf(&self) -> bool {
        self.a.wf() && self.b.wf()
    }

    fn len(&self) -> (res: usize) {
        let a = self.a.len();
        let b = self.b.len();
        if a < b { a } else { b }
    }

    fn producer(self) -> (res: ZipProducer<A::Producer, B::Producer>) {
        ZipProducer::new(self.a.producer(), self.b.producer())
    }
}

/// The slot that the `num_allocated`-th allocation takes in a ring of `capacity`
/// slots, a power of two: `num_allocated & (capacity - 1)`, that is the count modulo
/// the capacity.
pub fn ring_slot(num_allocated: usize, capacity: usize) -> (res: usize)
    requires
        exists|k: nat| k < usize::BITS && capacity == vstd::arithmetic::power2::pow2(k),
    ensures
        res == num_allocated % capacity,
        res < capacity,
{
    proof {
        let k = choose|k: nat| k < usize::BITS && capacity == vstd::arithmetic::power2::pow2(k);
        vstd::arithmetic::power2::lemma_pow2_pos(k);
        vstd::bits::lemma_usize_low_bits_mask_is_mod(num_allocated, k);
        assert(vstd::bits::low_bits_mask(k) as usize == (capacity - 1) as usize);
    }
    num_allocated & (capacity - 1)
}

} // verus!
