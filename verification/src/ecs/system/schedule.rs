//! The execution plan of a root system set.
use vstd::prelude::*;
use crate::ecs::bits::{Bits, max_bits};

verus! {

/// The systems of a root system set in an order that respects their dependencies,
/// with what the executors need to run them. Systems and sets are named by their node
/// ids; their code and their run conditions are looked up by those ids.
pub struct Schedule {
    /// The node ids of the systems, in execution order.
    pub systems: Vec<u32>,
    /// For each system, its number of dependencies and the positions (in `systems`) of
    /// the systems that depend on it.
    pub systems_dependencies: Vec<(usize, Vec<usize>)>,
    /// The node ids of the system sets, in dependency order; their run conditions are
    /// looked up by these ids.
    pub sets: Vec<u32>,
    /// For each system, the sets (by position in `sets`) that directly contain it.
    pub system_is_in_set_bitset: Vec<Bits>,
    /// For each set, the sets (by position in `sets`) that directly contain it.
    pub set_is_in_set_bitset: Vec<Bits>,
    /// For each set, the systems (by position in `systems`) that it directly contains.
    pub set_has_system_bitset: Vec<Bits>,
}

impl Schedule {
    /// The positions of the systems that list system `d` among their dependents.
    pub open spec fn dependents_of(self, d: int) -> Set<int> {
        Set::new(
            |i: int|
                0 <= i < self.systems@.len() && self.systems_dependencies@[i].1@.contains(d as usize),
        )
    }

    /// The shapes agree: one entry per system or set, bit sequences of the right
    /// lengths, dependents that are positions of systems, listed once, and no system
    /// with more dependents' claims on it than its number of dependencies.
    pub open spec fn wf(self) -> bool {
        let n = self.systems@.len();
        let m = self.sets@.len();
        &&& n <= max_bits()
        &&& m <= max_bits()
        &&& self.systems_dependencies@.len() == n
        &&& forall|i: int| 0 <= i < n ==> (#[trigger] self.systems_dependencies@[i]).1@.no_duplicates()
        &&& forall|i: int, k: int|
            0 <= i < n && 0 <= k < self.systems_dependencies@[i].1@.len()
                ==> #[trigger] self.systems_dependencies@[i].1@[k] < n
        &&& forall|d: int| 0 <= d < n ==> self.dependents_of(d).len() <= (#[trigger] self.systems_dependencies@[d]).0
        &&& self.system_is_in_set_bitset@.len() == n
        &&& forall|i: int| 0 <= i < n ==> (#[trigger] self.system_is_in_set_bitset@[i])@.len() == m
        &&& self.set_is_in_set_bitset@.len() == m
        &&& forall|k: int| 0 <= k < m ==> (#[trigger] self.set_is_in_set_bitset@[k])@.len() == m
        &&& self.set_has_system_bitset@.len() == m
        &&& forall|k: int| 0 <= k < m ==> (#[trigger] self.set_has_system_bitset@[k])@.len() == n
    }

    /// Whether every field is empty.
    pub open spec fn is_empty(self) -> bool {
        &&& self.systems@.len() == 0
        &&& self.systems_dependencies@.len() == 0
        &&& self.sets@.len() == 0
        &&& self.system_is_in_set_bitset@.len() == 0
        &&& self.set_is_in_set_bitset@.len() == 0
        &&& self.set_has_system_bitset@.len() == 0
    }
}

impl Default for Schedule {
    fn default() -> (res: Self)
        ensures
            res.is_empty(),
    {
        Schedule {
            systems: Vec::new(),
            systems_dependencies: Vec::new(),
            sets: Vec::new(),
            system_is_in_set_bitset: Vec::new(),
            set_is_in_set_bitset: Vec::new(),
            set_has_system_bitset: Vec::new(),
        }
    }
}

} // verus!
