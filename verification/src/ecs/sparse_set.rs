//! Sparse sets: values addressed by a sparse index, stored tightly packed.
use vstd::prelude::*;
use crate::ecs::sparse_vec::SparseVec;
use crate::ecs::erased_vec::{TypeErasedVec, TypeInfo};

verus! {

/// A data structure relying on two arrays:
/// - a tightly packed dense array containing the actual elements,
/// - a sparse array, mapping elements to their actual index in the dense array.
pub struct SparseSet<T> {
    sparse: SparseVec<usize>,
    dense: Vec<T>,
    /// Sparse index of each dense element.
    dense_sparse_indices: Vec<usize>,
}

impl<T> SparseSet<T> {
    /// The values, by sparse index.
    pub closed spec fn view(&self) -> Map<usize, T> {
        Map::new(
            |i: usize| self.sparse.spec_get(i as int) is Some,
            |i: usize| self.dense@[self.sparse.spec_get(i as int)->0 as int],
        )
    }

    /// Number of values stored in the dense array.
    pub closed spec fn dense_len(&self) -> nat {
        self.dense@.len()
    }

    pub closed spec fn wf(&self) -> bool {
        &&& self.dense@.len() == self.dense_sparse_indices@.len()
        &&& forall|i: int| #[trigger] self.sparse.spec_get(i) is Some ==> {
            let d = self.sparse.spec_get(i)->0;
            d < self.dense@.len() && self.dense_sparse_indices@[d as int] == i
        }
    }

    pub fn new() -> (res: Self)
        ensures
            res.wf(),
            res.view() == Map::<usize, T>::empty(),
            res.dense_len() == 0,
    {
        let res = SparseSet { sparse: SparseVec::new(), dense: Vec::new(), dense_sparse_indices: Vec::new() };
        assert(res.view() =~= Map::<usize, T>::empty());
        res
    }

    /// Store `value` at `index`. A value already at `index` stays in the dense array but
    /// is no longer reachable.
    pub fn insert(&mut self, index: usize, value: T)
        requires
            old(self).wf(),
            index < usize::MAX,
        ensures
            final(self).wf(),
            final(self).view() == old(self).view().insert(index, value),
            final(self).dense_len() == old(self).dense_len() + 1,
    {
        let ghost old_view = self.view();
        self.sparse.resize(index + 1);
        let n = self.dense.len();
        self.sparse.insert(index, n);
        self.dense.push(value);
        self.dense_sparse_indices.push(index);
        assert forall|i: int| #[trigger] self.sparse.spec_get(i) is Some implies {
            let d = self.sparse.spec_get(i)->0;
            d < self.dense@.len() && self.dense_sparse_indices@[d as int] == i
        } by {
            if i != index {
                assert(self.sparse.spec_get(i) == old(self).sparse.spec_get(i));
            }
        }
        assert forall|i: usize| #[trigger] self.view().contains_key(i) <==> old_view.insert(index, value).contains_key(i) by {
            if i != index {
                assert(self.sparse.spec_get(i as int) == old(self).sparse.spec_get(i as int));
            }
        }
        assert forall|i: usize| #[trigger] self.view().contains_key(i) implies self.view()[i] == old_view.insert(index, value)[i] by {
            if i != index {
                assert(self.sparse.spec_get(i as int) == old(self).sparse.spec_get(i as int));
            }
        }
        assert(self.view() =~= old_view.insert(index, value));
    }

    /// Number of values stored in the dense array, unreachable ones included.
    pub fn len(&self) -> (res: usize)
        ensures
            res == self.dense_len(),
    {
        self.dense.len()
    }

    /// The value at `index`.
    pub fn get(&self, index: usize) -> (res: Option<&T>)
        requires
            self.wf(),
        ensures
            match res {
                Some(v) => self.view().contains_key(index) && self.view()[index] == *v,
                None => !self.view().contains_key(index),
            },
    {
        match self.sparse.get(index) {
            Some(d) => Some(&self.dense[*d]),
            None => None,
        }
    }

    /// Put `value` at `index`, which holds a value, and give back the value it held.
    pub fn replace(&mut self, index: usize, value: T) -> (res: T)
        requires
            old(self).wf(),
            old(self).view().contains_key(index),
        ensures
            res == old(self).view()[index],
            final(self).wf(),
            final(self).view() == old(self).view().insert(index, value),
            final(self).dense_len() == old(self).dense_len(),
    {
        let d = match self.sparse.get(index) {
            Some(d) => *d,
            None => 0,
        };
        let ghost old_view = self.view();
        let mut v = value;
        std::mem::swap(&mut self.dense[d], &mut v);
        assert forall|i: usize| #[trigger] self.view().contains_key(i) implies self.view()[i] == old_view.insert(index, value)[i] by {
            if i != index {
                let e = self.sparse.spec_get(i as int)->0;
                assert(self.dense_sparse_indices@[e as int] == i);
            }
        }
        assert(self.view() =~= old_view.insert(index, value));
        v
    }
}

/// Like [`SparseSet`], with byte-blob values of one element type.
pub struct TypeErasedSparseSet {
    sparse: SparseVec<usize>,
    dense: TypeErasedVec,
    dense_sparse_indices: Vec<usize>,
}

impl TypeErasedSparseSet {
    /// The values, by sparse index.
    pub closed spec fn view(&self) -> Map<usize, Seq<u8>> {
        Map::new(
            |i: usize| self.sparse.spec_get(i as int) is Some,
            |i: usize| self.dense.view()[self.sparse.spec_get(i as int)->0 as int],
        )
    }

    pub closed spec fn spec_type_info(&self) -> TypeInfo {
        self.dense.spec_type_info()
    }

    pub closed spec fn spec_len(&self) -> nat {
        self.dense.view().len()
    }

    /// Whether one more value can be inserted without an invalid layout.
    pub closed spec fn can_insert(&self) -> bool {
        self.dense.can_push()
    }

    /// How many values the dense storage holds room for.
    pub closed spec fn spec_capacity(&self) -> nat {
        self.dense.spec_capacity()
    }

    /// The dense position of the value at `index`.
    pub closed spec fn dense_position(&self, index: usize) -> usize {
        self.sparse.spec_get(index as int)->0
    }

    /// One more value fits when the room is not used up, or, for a type with a size, when
    /// the storage for one more value has a valid layout.
    pub proof fn lemma_can_insert(&self)
        ensures
            self.can_insert() == (self.spec_len() < self.spec_capacity()
                || self.spec_type_info().size != 0 && self.spec_type_info().fits(self.spec_len() + 1 as int)),
    {
    }

    pub closed spec fn wf(&self) -> bool {
        &&& self.dense.wf()
        &&& self.dense.view().len() == self.dense_sparse_indices@.len()
        &&& forall|i: int| #[trigger] self.sparse.spec_get(i) is Some ==> {
            let d = self.sparse.spec_get(i)->0;
            d < self.dense.view().len() && self.dense_sparse_indices@[d as int] == i
        }
        &&& forall|d: int| 0 <= d < self.dense_sparse_indices@.len() ==> {
            let i = #[trigger] self.dense_sparse_indices@[d];
            self.sparse.spec_get(i as int) == Some(d as usize)
        }
        &&& forall|i: usize| #[trigger] self.view().contains_key(i) ==> self.view()[i].len() == self.dense.spec_type_info().size
    }

    pub fn new(type_info: TypeInfo) -> (res: Self)
        ensures
            res.wf(),
            res.view() == Map::<usize, Seq<u8>>::empty(),
            res.spec_type_info() == type_info,
            res.spec_len() == 0,
            res.can_insert() == (type_info.size == 0 || type_info.fits(1)),
            res.spec_capacity() == if type_info.size == 0 { usize::MAX as nat } else { 0 },
    {
        let res = TypeErasedSparseSet {
            sparse: SparseVec::new(),
            dense: TypeErasedVec::new(type_info),
            dense_sparse_indices: Vec::new(),
        };
        assert(res.view() =~= Map::<usize, Seq<u8>>::empty());
        res
    }

    pub fn type_info(&self) -> (res: TypeInfo)
        ensures
            res == self.spec_type_info(),
    {
        self.dense.type_info()
    }

    pub fn len(&self) -> (res: usize)
        ensures
            res == self.spec_len(),
    {
        self.dense.len()
    }

    pub fn can_insert_value(&self) -> (res: bool)
        requires
            self.wf(),
        ensures
            res == self.can_insert(),
    {
        self.dense.can_push_value()
    }

    /// Store a copy of `value` at `index`, replacing the value held there if any. Returns
    /// the dense index used.
    pub fn insert_unchecked(&mut self, index: usize, value: &[u8]) -> (res: usize)
        requires
            old(self).wf(),
            index < usize::MAX,
            value@.len() == old(self).spec_type_info().size,
            old(self).can_insert(),
        ensures
            final(self).wf(),
            final(self).view() == old(self).view().insert(index, value@),
            final(self).spec_type_info() == old(self).spec_type_info(),
            final(self).spec_len() == if old(self).view().contains_key(index) {
                old(self).spec_len()
            } else {
                old(self).spec_len() + 1
            },
            res == if old(self).view().contains_key(index) {
                old(self).dense_position(index)
            } else {
                old(self).spec_len() as usize
            },
            final(self).spec_capacity() == if old(self).view().contains_key(index)
                || old(self).spec_len() + 1 <= old(self).spec_capacity() {
                old(self).spec_capacity()
            } else {
                old(self).spec_len() + 1
            },
            final(self).can_insert() == (final(self).spec_len() < final(self).spec_capacity()
                || final(self).spec_type_info().size != 0 && final(self).spec_type_info().fits(final(self).spec_len() + 1 as int)),
    {
        if let Some(d) = self.sparse.get(index) {
            let d = *d;
            self.write(index, value);
            return d;
        }
        let ghost old_view = self.view();
        let dense_index = self.dense.len();
        self.sparse.resize(index + 1);
        self.sparse.insert(index, dense_index);
        self.dense.push(value);
        self.dense_sparse_indices.push(index);
        proof {
            assert forall|i: int| #[trigger] self.sparse.spec_get(i) is Some implies {
                let d = self.sparse.spec_get(i)->0;
                d < self.dense.view().len() && self.dense_sparse_indices@[d as int] == i
            } by {
                if i != index {
                    assert(self.sparse.spec_get(i) == old(self).sparse.spec_get(i));
                }
            }
            assert forall|d: int| 0 <= d < self.dense_sparse_indices@.len() implies {
                let i = #[trigger] self.dense_sparse_indices@[d];
                self.sparse.spec_get(i as int) == Some(d as usize)
            } by {
                if d < dense_index {
                    let i = old(self).dense_sparse_indices@[d];
                    assert(old(self).sparse.spec_get(i as int) == Some(d as usize));
                    assert(i != index);
                }
            }
            assert forall|i: usize| #[trigger] self.view().contains_key(i) <==> old_view.insert(index, value@).contains_key(i) by {
                if i != index {
                    assert(self.sparse.spec_get(i as int) == old(self).sparse.spec_get(i as int));
                }
            }
            assert forall|i: usize| #[trigger] self.view().contains_key(i) implies self.view()[i] == old_view.insert(index, value@)[i] by {
                if i != index {
                    assert(self.sparse.spec_get(i as int) == old(self).sparse.spec_get(i as int));
                }
            }
            assert(self.view() =~= old_view.insert(index, value@));
        }
        dense_index
    }

    /// Remove the value at `index`; the last dense value takes its place. The removed
    /// value is handed back, for the caller to drop once.
    pub fn remove(&mut self, index: usize) -> (removed: Vec<u8>)
        requires
            old(self).wf(),
            old(self).view().contains_key(index),
        ensures
            removed@ == old(self).view()[index],
            final(self).wf(),
            final(self).view() == old(self).view().remove(index),
            final(self).spec_type_info() == old(self).spec_type_info(),
            final(self).spec_len() + 1 == old(self).spec_len(),
            final(self).spec_capacity() == old(self).spec_capacity(),
    {
        let d = match self.sparse.get(index) {
            Some(d) => *d,
            None => 0,
        };
        let ghost old_view = self.view();
        let ghost old_sparse = self.sparse;
        let ghost old_dense = self.dense.view();
        let ghost old_dsi = self.dense_sparse_indices@;
        assert(old_sparse.spec_get(index as int) == Some(d));
        let last = self.dense.len() - 1;
        let last_sparse_index = self.dense_sparse_indices[last];
        assert(old_sparse.spec_get(last_sparse_index as int) == Some(last));
        self.sparse.insert(last_sparse_index, d);
        let removed = self.dense.swap_remove(d);
        self.dense_sparse_indices.swap_remove(d);
        self.sparse.remove(index);
        proof {
            let li = last_sparse_index;
            assert forall|i: int| #[trigger] self.sparse.spec_get(i) ==
                (if i == index { None } else if i == li { Some(d) } else { old_sparse.spec_get(i) }) by {
            }
            assert forall|i: int| #[trigger] self.sparse.spec_get(i) is Some implies {
                let e = self.sparse.spec_get(i)->0;
                e < self.dense.view().len() && self.dense_sparse_indices@[e as int] == i
            } by {
                if i == li {
                    assert(old_dsi[d as int] == index);
                } else {
                    let e = old_sparse.spec_get(i)->0;
                    assert(old_dsi[e as int] == i);
                }
            }
            assert forall|k: int| 0 <= k < self.dense_sparse_indices@.len() implies {
                let i = #[trigger] self.dense_sparse_indices@[k];
                self.sparse.spec_get(i as int) == Some(k as usize)
            } by {
                if k != d {
                    let i = old_dsi[k];
                    assert(old_sparse.spec_get(i as int) == Some(k as usize));
                }
            }
            assert forall|i: usize| #[trigger] self.view().contains_key(i) <==> old_view.remove(index).contains_key(i) by {
            }
            assert forall|i: usize| #[trigger] self.view().contains_key(i) implies self.view()[i] == old_view.remove(index)[i] by {
                if i == li {
                } else {
                    let e = old_sparse.spec_get(i as int)->0;
                    assert(old_dsi[e as int] == i);
                }
            }
            assert(self.view() =~= old_view.remove(index));
        }
        removed
    }

    /// The value at `index`.
    pub fn get(&self, index: usize) -> (res: Option<&Vec<u8>>)
        requires
            self.wf(),
        ensures
            match res {
                Some(v) => self.view().contains_key(index) && self.view()[index] == v@,
                None => !self.view().contains_key(index),
            },
    {
        match self.sparse.get(index) {
            Some(d) => Some(self.dense.get(*d)),
            None => None,
        }
    }

    /// Overwrite the value at `index`.
    pub fn write(&mut self, index: usize, value: &[u8])
        requires
            old(self).wf(),
            old(self).view().contains_key(index),
            value@.len() == old(self).spec_type_info().size,
        ensures
            final(self).wf(),
            final(self).view() == old(self).view().insert(index, value@),
            final(self).spec_type_info() == old(self).spec_type_info(),
            final(self).spec_len() == old(self).spec_len(),
            final(self).can_insert() == old(self).can_insert(),
            final(self).spec_capacity() == old(self).spec_capacity(),
    {
        let ghost old_view = self.view();
        let d = match self.sparse.get(index) {
            Some(d) => *d,
            None => 0,
        };
        self.dense.write(d, value);
        proof {
            assert forall|i: usize| #[trigger] self.view().contains_key(i) implies self.view()[i] == old_view.insert(index, value@)[i] by {
                if i != index {
                    let e = self.sparse.spec_get(i as int)->0;
                    assert(self.dense_sparse_indices@[e as int] == i);
                }
            }
            assert(self.view() =~= old_view.insert(index, value@));
        }
    }
}

} // verus!
