//! The registry of every archetype of a world.
use vstd::prelude::*;
use crate::ecs::archetype::{distinct, fresh_column_can_insert, Archetype, ArchetypeRelationEdge, ArchetypeView};
use crate::ecs::component::{ComponentId, ComponentRegistry};
use crate::ecs::entity::{ArchetypeId, Entity};

verus! {

/// Index of the first archetype at or after `from` made of exactly `components`.
pub open spec fn first_archetype_with(archetypes: Seq<ArchetypeView>, components: Seq<ComponentId>, from: int) -> Option<int>
    decreases archetypes.len() - from,
{
    if from < 0 || from >= archetypes.len() {
        None
    } else if archetypes[from].components == components {
        Some(from)
    } else {
        first_archetype_with(archetypes, components, from + 1)
    }
}

pub proof fn lemma_first_archetype_with(archetypes: Seq<ArchetypeView>, components: Seq<ComponentId>, from: int)
    requires
        from >= 0,
    ensures
        first_archetype_with(archetypes, components, from) matches Some(k) ==> from <= k < archetypes.len()
            && archetypes[k].components == components
            && forall|j: int| from <= j < k ==> #[trigger] archetypes[j].components != components,
        first_archetype_with(archetypes, components, from) is None ==>
            forall|j: int| from <= j < archetypes.len() ==> #[trigger] archetypes[j].components != components,
    decreases archetypes.len() - from,
{
    if from < archetypes.len() && archetypes[from].components != components {
        lemma_first_archetype_with(archetypes, components, from + 1);
    }
}

/// Every archetype, by id. The generation counts the archetypes registered so far.
pub struct ArchetypeRegistry {
    archetypes: Vec<Archetype>,
    generation: u64,
    next_archetype_component_id: usize,
}

impl ArchetypeRegistry {
    pub closed spec fn view(&self) -> Seq<ArchetypeView> {
        self.archetypes@.map_values(|a: Archetype| a.view())
    }

    pub closed spec fn spec_generation(&self) -> u64 {
        self.generation
    }

    pub closed spec fn next_component_archetype_id(&self) -> usize {
        self.next_archetype_component_id
    }

    pub closed spec fn wf(&self) -> bool {
        &&& self.generation == self.archetypes@.len()
        &&& forall|i: int| 0 <= i < self.archetypes@.len() ==> #[trigger] self.archetypes@[i].wf()
        &&& forall|i: int| 0 <= i < self.archetypes@.len() ==> #[trigger] self.archetypes@[i].view().id == i
    }

    /// Every column of archetype `id` can store one more value.
    pub closed spec fn can_insert_row_into(&self, id: int) -> bool {
        self.archetypes@[id].columns_can_insert()
    }

    /// In every archetype, the columns are exactly the components, and stored values
    /// have the column's size.
    pub proof fn lemma_columns_match_components(&self)
        requires
            self.wf(),
        ensures
            forall|a: int, c: ComponentId| 0 <= a < self.view().len() ==>
                (#[trigger] self.view()[a].columns.contains_key(c) <==> self.view()[a].components.contains(c)),
            forall|a: int| 0 <= a < self.view().len() ==> distinct(#[trigger] self.view()[a].components),
            forall|a: int| 0 <= a < self.view().len() ==> #[trigger] self.view()[a].component_archetype_ids.len() == self.view()[a].components.len(),
            forall|a: int| 0 <= a < self.view().len() ==> #[trigger] self.view()[a].id == a,
            self.spec_generation() == self.view().len(),
            forall|a: int, c: ComponentId, e: usize| 0 <= a < self.view().len() && #[trigger] self.view()[a].columns.contains_key(c)
                && #[trigger] self.view()[a].columns[c].contains_key(e)
                ==> self.view()[a].columns[c][e].len() == self.view()[a].column_types[c].size,
    {
        assert forall|a: int| 0 <= a < self.view().len() implies {
            &&& forall|c: ComponentId| #[trigger] self.view()[a].columns.contains_key(c) <==> self.view()[a].components.contains(c)
            &&& distinct(self.view()[a].components)
            &&& self.view()[a].component_archetype_ids.len() == self.view()[a].components.len()
            &&& forall|c: ComponentId, e: usize| #[trigger] self.view()[a].columns.contains_key(c) && #[trigger] self.view()[a].columns[c].contains_key(e)
                ==> self.view()[a].columns[c][e].len() == self.view()[a].column_types[c].size
        } by {
            self.archetypes@[a].lemma_columns_match_components();
        }
    }

    /// An archetype without columns can always take one more row.
    pub proof fn lemma_no_columns_can_insert(&self, id: int)
        requires
            self.wf(),
            0 <= id < self.view().len(),
            self.view()[id].columns.dom() == Set::<ComponentId>::empty(),
        ensures
            self.can_insert_row_into(id),
    {
        self.archetypes@[id].lemma_no_columns_can_insert();
    }

    /// A new archetype with `count` components can be registered without an overflow.
    pub open spec fn can_register(&self, count: nat) -> bool {
        &&& self.view().len() < usize::MAX
        &&& self.spec_generation() < u64::MAX
        &&& self.next_component_archetype_id() + count <= usize::MAX
    }

    pub fn new() -> (res: Self)
        ensures
            res.wf(),
            res.view() == Seq::<ArchetypeView>::empty(),
            res.spec_generation() == 0,
            res.next_component_archetype_id() == 0,
    {
        let res = ArchetypeRegistry { archetypes: Vec::new(), generation: 0, next_archetype_component_id: 0 };
        assert(res.view() =~= Seq::<ArchetypeView>::empty());
        res
    }

    pub fn len(&self) -> (res: usize)
        ensures
            res == self.view().len(),
    {
        self.archetypes.len()
    }

    pub fn get(&self, id: ArchetypeId) -> (res: &Archetype)
        requires
            self.wf(),
            id < self.view().len(),
        ensures
            res.wf(),
            res.view() == self.view()[id as int],
    {
        &self.archetypes[id]
    }

    /// Number of archetypes registered so far.
    pub fn generation(&self) -> (res: u64)
        ensures
            res == self.spec_generation(),
    {
        self.generation
    }

    /// Whether a new archetype with `count` components can be registered without an overflow.
    pub fn can_register_archetype(&self, count: usize) -> (res: bool)
        ensures
            res == self.can_register(count as nat),
    {
        self.archetypes.len() < usize::MAX && self.generation < u64::MAX
            && count <= usize::MAX - self.next_archetype_component_id
    }

    /// Whether every column of archetype `id` can store one more value.
    pub fn can_insert_row(&self, id: ArchetypeId) -> (res: bool)
        requires
            self.wf(),
            id < self.view().len(),
        ensures
            res == self.can_insert_row_into(id as int),
    {
        self.archetypes[id].can_insert_row()
    }

    /// Register a new archetype made of `components`, giving each component a fresh
    /// archetype-component id.
    pub fn register(&mut self, component_registry: &ComponentRegistry, components: &Vec<ComponentId>) -> (res: ArchetypeId)
        requires
            old(self).wf(),
            old(self).can_register(components@.len()),
            distinct(components@),
            forall|i: int| 0 <= i < components@.len() ==> #[trigger] components@[i] < usize::MAX,
            forall|i: int| 0 <= i < components@.len() ==> component_registry.view().contains_key(#[trigger] components@[i]),
        ensures
            final(self).wf(),
            res == old(self).view().len(),
            final(self).view().len() == old(self).view().len() + 1,
            forall|i: int| 0 <= i < old(self).view().len() ==> #[trigger] final(self).view()[i] == old(self).view()[i],
            forall|i: int| 0 <= i < old(self).view().len() ==> #[trigger] final(self).can_insert_row_into(i) == old(self).can_insert_row_into(i),
            final(self).view()[res as int].id == res,
            final(self).view()[res as int].components == components@,
            final(self).view()[res as int].entities == Seq::<Entity>::empty(),
            final(self).view()[res as int].edges == Map::<ComponentId, ArchetypeRelationEdge>::empty(),
            forall|c: ComponentId| #[trigger] final(self).view()[res as int].columns.contains_key(c) <==> components@.contains(c),
            forall|c: ComponentId| #[trigger] final(self).view()[res as int].columns.contains_key(c) ==>
                final(self).view()[res as int].columns[c] == Map::<usize, Seq<u8>>::empty(),
            forall|c: ComponentId| #[trigger] final(self).view()[res as int].columns.contains_key(c) ==>
                final(self).view()[res as int].column_types[c] == component_registry.view()[c].type_info,
            final(self).spec_generation() == old(self).spec_generation() + 1,
            final(self).next_component_archetype_id() == old(self).next_component_archetype_id() + components@.len(),
            (forall|i: int| 0 <= i < components@.len() ==> #[trigger] fresh_column_can_insert(component_registry.view()[components@[i]].type_info))
                ==> final(self).can_insert_row_into(res as int),
    {
        let mut ids: Vec<usize> = Vec::new();
        let mut i: usize = 0;
        while i < components.len()
            invariant
                i <= components@.len(),
                ids@.len() == i,
                self.next_archetype_component_id == old(self).next_archetype_component_id + i,
                old(self).next_component_archetype_id() + components@.len() <= usize::MAX,
                self.archetypes@ == old(self).archetypes@,
                self.generation == old(self).generation,
            decreases components@.len() - i,
        {
            ids.push(self.next_archetype_component_id);
            self.next_archetype_component_id = self.next_archetype_component_id + 1;
            i = i + 1;
        }
        let id = self.archetypes.len();
        let mut list: Vec<ComponentId> = Vec::new();
        let mut j: usize = 0;
        while j < components.len()
            invariant
                j <= components@.len(),
                list@ == components@.subrange(0, j as int),
            decreases components@.len() - j,
        {
            list.push(components[j]);
            j = j + 1;
        }
        assert(list@ =~= components@);
        let archetype = Archetype::new_unchecked(id, component_registry, list, ids);
        self.archetypes.push(archetype);
        self.generation = self.generation + 1;
        proof {
            assert forall|k: int| 0 <= k < old(self).view().len() implies #[trigger] self.view()[k] == old(self).view()[k] by {
                assert(self.archetypes@[k] == old(self).archetypes@[k]);
            }
            assert forall|k: int| 0 <= k < old(self).view().len() implies #[trigger] self.can_insert_row_into(k) == old(self).can_insert_row_into(k) by {
                assert(self.archetypes@[k] == old(self).archetypes@[k]);
            }
            assert forall|k: int| 0 <= k < self.archetypes@.len() implies #[trigger] self.archetypes@[k].wf() by {
                if k < old(self).archetypes@.len() {
                    assert(self.archetypes@[k] == old(self).archetypes@[k]);
                }
            }
            assert forall|k: int| 0 <= k < self.archetypes@.len() implies #[trigger] self.archetypes@[k].view().id == k by {
                if k < old(self).archetypes@.len() {
                    assert(self.archetypes@[k] == old(self).archetypes@[k]);
                }
            }
        }
        id
    }

    /// The id of the first archetype made of exactly `components`, if any.
    pub fn find(&self, components: &Vec<ComponentId>) -> (res: Option<ArchetypeId>)
        requires
            self.wf(),
        ensures
            match res {
                Some(id) => first_archetype_with(self.view(), components@, 0) == Some(id as int),
                None => first_archetype_with(self.view(), components@, 0) is None,
            },
    {
        let mut i: usize = 0;
        while i < self.archetypes.len()
            invariant
                i <= self.view().len(),
                self.view().len() == self.archetypes@.len(),
                first_archetype_with(self.view(), components@, 0) == first_archetype_with(self.view(), components@, i as int),
            decreases self.archetypes@.len() - i,
        {
            let list = self.archetypes[i].components();
            if same_components(list, components) {
                return Some(i);
            }
            i = i + 1;
        }
        None
    }

    /// Add a row to archetype `id`; see [`Archetype::insert_row`].
    pub fn insert_row(&mut self, id: ArchetypeId, entity: Entity, values: Vec<(ComponentId, Vec<u8>)>) -> (res: usize)
        requires
            old(self).wf(),
            id < old(self).view().len(),
            old(self).can_insert_row_into(id as int),
            entity.id < u32::MAX,
            values@.len() == old(self).view()[id as int].components.len(),
            forall|k: int| 0 <= k < values@.len() ==> #[trigger] values@[k].0 == old(self).view()[id as int].components[k],
            forall|k: int| 0 <= k < values@.len() ==> #[trigger] values@[k].1@.len() == old(self).view()[id as int].column_types[values@[k].0].size,
            forall|c: ComponentId| #[trigger] old(self).view()[id as int].columns.contains_key(c) ==> !old(self).view()[id as int].columns[c].contains_key(entity.id as usize),
        ensures
            final(self).wf(),
            res == old(self).view()[id as int].entities.len(),
            final(self).view().len() == old(self).view().len(),
            final(self).spec_generation() == old(self).spec_generation(),
            final(self).next_component_archetype_id() == old(self).next_component_archetype_id(),
            forall|i: int| 0 <= i < old(self).view().len() && i != id ==> #[trigger] final(self).view()[i] == old(self).view()[i],
            forall|i: int| 0 <= i < old(self).view().len() && i != id ==> #[trigger] final(self).can_insert_row_into(i) == old(self).can_insert_row_into(i),
            final(self).view()[id as int].id == old(self).view()[id as int].id,
            final(self).view()[id as int].components == old(self).view()[id as int].components,
            final(self).view()[id as int].component_archetype_ids == old(self).view()[id as int].component_archetype_ids,
            final(self).view()[id as int].edges == old(self).view()[id as int].edges,
            final(self).view()[id as int].column_types == old(self).view()[id as int].column_types,
            final(self).view()[id as int].entities == old(self).view()[id as int].entities.push(entity),
            final(self).view()[id as int].columns.dom() == old(self).view()[id as int].columns.dom(),
            forall|k: int| 0 <= k < values@.len() ==> #[trigger] final(self).view()[id as int].columns[values@[k].0]
                == old(self).view()[id as int].columns[values@[k].0].insert(entity.id as usize, values@[k].1@),
    {
        assert(self.archetypes@[id as int].wf());
        let res = self.archetypes[id].insert_row(entity, values);
        proof {
            assert forall|i: int| 0 <= i < old(self).view().len() && i != id implies #[trigger] self.view()[i] == old(self).view()[i] by {
                assert(self.archetypes@[i] == old(self).archetypes@[i]);
            }
            assert forall|i: int| 0 <= i < old(self).view().len() && i != id implies #[trigger] self.can_insert_row_into(i) == old(self).can_insert_row_into(i) by {
                assert(self.archetypes@[i] == old(self).archetypes@[i]);
            }
            assert forall|k: int| 0 <= k < self.archetypes@.len() implies #[trigger] self.archetypes@[k].wf() && self.archetypes@[k].view().id == k by {
                if k != id {
                    assert(self.archetypes@[k] == old(self).archetypes@[k]);
                }
            }
        }
        res
    }

    /// Remove a row from archetype `id`; see [`Archetype::remove_row`].
    pub fn remove_row(&mut self, id: ArchetypeId, entity_index: usize, entity: Entity) -> (removed: Vec<(ComponentId, Vec<u8>)>)
        requires
            old(self).wf(),
            id < old(self).view().len(),
            entity_index < old(self).view()[id as int].entities.len(),
            forall|c: ComponentId| #[trigger] old(self).view()[id as int].columns.contains_key(c) ==> old(self).view()[id as int].columns[c].contains_key(entity.id as usize),
        ensures
            final(self).wf(),
            final(self).view().len() == old(self).view().len(),
            final(self).spec_generation() == old(self).spec_generation(),
            final(self).next_component_archetype_id() == old(self).next_component_archetype_id(),
            forall|i: int| 0 <= i < old(self).view().len() && i != id ==> #[trigger] final(self).view()[i] == old(self).view()[i],
            forall|i: int| 0 <= i < old(self).view().len() && i != id ==> #[trigger] final(self).can_insert_row_into(i) == old(self).can_insert_row_into(i),
            final(self).view()[id as int].id == old(self).view()[id as int].id,
            final(self).view()[id as int].components == old(self).view()[id as int].components,
            final(self).view()[id as int].component_archetype_ids == old(self).view()[id as int].component_archetype_ids,
            final(self).view()[id as int].edges == old(self).view()[id as int].edges,
            final(self).view()[id as int].column_types == old(self).view()[id as int].column_types,
            final(self).view()[id as int].entities == old(self).view()[id as int].entities.update(entity_index as int, old(self).view()[id as int].entities.last()).drop_last(),
            final(self).view()[id as int].columns.dom() == old(self).view()[id as int].columns.dom(),
            forall|c: ComponentId| #[trigger] final(self).view()[id as int].columns.contains_key(c) ==>
                final(self).view()[id as int].columns[c] == old(self).view()[id as int].columns[c].remove(entity.id as usize),
            removed@.len() == old(self).view()[id as int].components.len(),
            forall|k: int| 0 <= k < removed@.len() ==> (#[trigger] removed@[k]).0 == old(self).view()[id as int].components[k]
                && removed@[k].1@ == old(self).view()[id as int].columns[old(self).view()[id as int].components[k]][entity.id as usize],
    {
        assert(self.archetypes@[id as int].wf());
        let removed = self.archetypes[id].remove_row(entity_index, entity);
        proof {
            assert forall|i: int| 0 <= i < old(self).view().len() && i != id implies #[trigger] self.view()[i] == old(self).view()[i] by {
                assert(self.archetypes@[i] == old(self).archetypes@[i]);
            }
            assert forall|i: int| 0 <= i < old(self).view().len() && i != id implies #[trigger] self.can_insert_row_into(i) == old(self).can_insert_row_into(i) by {
                assert(self.archetypes@[i] == old(self).archetypes@[i]);
            }
            assert forall|k: int| 0 <= k < self.archetypes@.len() implies #[trigger] self.archetypes@[k].wf() && self.archetypes@[k].view().id == k by {
                if k != id {
                    assert(self.archetypes@[k] == old(self).archetypes@[k]);
                }
            }
        }
        removed
    }

    /// Overwrites in archetype `id` the stored value of `component` for entity id
    /// `entity_id`.
    pub fn write_component_value(&mut self, id: ArchetypeId, component: ComponentId, entity_id: usize, value: &[u8])
        requires
            old(self).wf(),
            id < old(self).view().len(),
            old(self).view()[id as int].columns.contains_key(component),
            old(self).view()[id as int].columns[component].contains_key(entity_id),
            value@.len() == old(self).view()[id as int].column_types[component].size,
        ensures
            final(self).wf(),
            final(self).view() == old(self).view().update(id as int, ArchetypeView {
                columns: old(self).view()[id as int].columns.insert(component, old(self).view()[id as int].columns[component].insert(entity_id, value@)),
                ..old(self).view()[id as int]
            }),
            forall|i: int| 0 <= i < old(self).view().len() ==> #[trigger] final(self).can_insert_row_into(i) == old(self).can_insert_row_into(i),
            final(self).spec_generation() == old(self).spec_generation(),
            final(self).next_component_archetype_id() == old(self).next_component_archetype_id(),
    {
        assert(self.archetypes@[id as int].wf());
        self.archetypes[id].write_component_value(component, entity_id, value);
        proof {
            assert forall|i: int| 0 <= i < old(self).view().len() implies #[trigger] self.can_insert_row_into(i) == old(self).can_insert_row_into(i) by {
                if i != id {
                    assert(self.archetypes@[i] == old(self).archetypes@[i]);
                }
            }
            assert forall|k: int| 0 <= k < self.archetypes@.len() implies #[trigger] self.archetypes@[k].wf() && self.archetypes@[k].view().id == k by {
                if k != id {
                    assert(self.archetypes@[k] == old(self).archetypes@[k]);
                }
            }
            assert(self.view() =~= old(self).view().update(id as int, ArchetypeView {
                columns: old(self).view()[id as int].columns.insert(component, old(self).view()[id as int].columns[component].insert(entity_id, value@)),
                ..old(self).view()[id as int]
            }));
        }
    }

    /// Record in archetype `id` the edge of `component`.
    pub fn set_edge(&mut self, id: ArchetypeId, component: ComponentId, edge: ArchetypeRelationEdge)
        requires
            old(self).wf(),
            id < old(self).view().len(),
        ensures
            final(self).wf(),
            final(self).view() == old(self).view().update(id as int,
                ArchetypeView { edges: old(self).view()[id as int].edges.insert(component, edge), ..old(self).view()[id as int] }),
            final(self).spec_generation() == old(self).spec_generation(),
            final(self).next_component_archetype_id() == old(self).next_component_archetype_id(),
            forall|i: int| 0 <= i < old(self).view().len() ==> #[trigger] final(self).can_insert_row_into(i) == old(self).can_insert_row_into(i),
    {
        assert(self.archetypes@[id as int].wf());
        self.archetypes[id].set_edge(component, edge);
        proof {
            assert forall|k: int| 0 <= k < self.archetypes@.len() implies #[trigger] self.archetypes@[k].wf() && self.archetypes@[k].view().id == k by {
                if k != id {
                    assert(self.archetypes@[k] == old(self).archetypes@[k]);
                }
            }
            assert forall|i: int| 0 <= i < old(self).view().len() implies #[trigger] self.can_insert_row_into(i) == old(self).can_insert_row_into(i) by {
                if i != id {
                    assert(self.archetypes@[i] == old(self).archetypes@[i]);
                }
            }
            assert(self.view() =~= old(self).view().update(id as int,
                ArchetypeView { edges: old(self).view()[id as int].edges.insert(component, edge), ..old(self).view()[id as int] }));
        }
    }
}

impl Default for ArchetypeRegistry {
    fn default() -> (res: Self)
        ensures
            res.wf(),
            res.view() == Seq::<ArchetypeView>::empty(),
            res.spec_generation() == 0,
    {
        ArchetypeRegistry::new()
    }
}

/// Whether `a` and `b` hold the same components in the same order.
pub fn same_components(a: &Vec<ComponentId>, b: &Vec<ComponentId>) -> (res: bool)
    ensures
        res == (a@ == b@),
{
    if a.len() != b.len() {
        return false;
    }
    let mut i: usize = 0;
    while i < a.len()
        invariant
            a@.len() == b@.len(),
            i <= a@.len(),
            forall|k: int| 0 <= k < i ==> a@[k] == b@[k],
        decreases a@.len() - i,
    {
        if a[i] != b[i] {
            return false;
        }
        i = i + 1;
    }
    assert(a@ =~= b@);
    true
}

} // verus!
