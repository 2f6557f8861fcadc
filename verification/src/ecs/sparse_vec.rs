//! A vector of optional slots, addressed by index.
use vstd::prelude::*;

verus! {

/// A vector whose slots may be empty.
pub struct SparseVec<T> {
    elements: Vec<Option<T>>,
}

impl<T> SparseVec<T> {
    pub closed spec fn view(&self) -> Seq<Option<T>> {
        self.elements@
    }

    /// Content of slot `index` (empty beyond the end).
    pub open spec fn spec_get(&self, index: int) -> Option<T> {
        if 0 <= index < self.view().len() {
            self.view()[index]
        } else {
            None
        }
    }

    pub fn new() -> (res: Self)
        ensures
            res.view() == Seq::<Option<T>>::empty(),
    {
        SparseVec { elements: Vec::new() }
    }

    pub fn len(&self) -> (res: usize)
        ensures
            res == self.view().len(),
    {
        self.elements.len()
    }

    /// Grow to at least `new_len` slots; new slots are empty. Never shrinks.
    pub fn resize(&mut self, new_len: usize)
        ensures
            final(self).view().len() == if new_len > old(self).view().len() { new_len as nat } else { old(self).view().len() },
            forall|i: int| 0 <= i < old(self).view().len() ==> #[trigger] final(self).view()[i] == old(self).view()[i],
            forall|i: int| old(self).view().len() <= i < final(self).view().len() ==> #[trigger] final(self).view()[i] is None,
            forall|i: int| #[trigger] final(self).spec_get(i) == old(self).spec_get(i),
    {
        while self.elements.len() < new_len
            invariant
                old(self).view().len() <= self.elements@.len(),
                self.elements@.len() <= if new_len > old(self).view().len() { new_len as nat } else { old(self).view().len() },
                forall|i: int| 0 <= i < old(self).view().len() ==> #[trigger] self.elements@[i] == old(self).view()[i],
                forall|i: int| old(self).view().len() <= i < self.elements@.len() ==> #[trigger] self.elements@[i] is None,
            decreases new_len - self.elements@.len(),
        {
            self.elements.push(None);
        }
        assert forall|i: int| #[trigger] self.spec_get(i) == old(self).spec_get(i) by {
            if 0 <= i < old(self).view().len() {
            } else if old(self).view().len() <= i < self.view().len() {
                assert(self.elements@[i] is None);
            }
        }
    }

    /// Fill slot `index`.
    pub fn insert(&mut self, index: usize, value: T)
        requires
            index < old(self).view().len(),
        ensures
            final(self).view() == old(self).view().update(index as int, Some(value)),
    {
        self.elements.set(index, Some(value));
    }

    /// Empty slot `index`.
    pub fn remove(&mut self, index: usize)
        requires
            index < old(self).view().len(),
        ensures
            final(self).view() == old(self).view().update(index as int, None),
    {
        self.elements.set(index, None);
    }

    /// Content of slot `index`, `None` if empty or beyond the end.
    pub fn get(&self, index: usize) -> (res: Option<&T>)
        ensures
            match res {
                Some(v) => self.spec_get(index as int) == Some(*v),
                None => self.spec_get(index as int) is None,
            },
    {
        if index < self.elements.len() {
            match &self.elements[index] {
                Some(v) => Some(v),
                None => None,
            }
        } else {
            None
        }
    }
}

} // verus!
