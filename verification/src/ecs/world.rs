//! The world: entities, the archetypes that store their components, and the registry
//! of components. Component values are byte blobs of the component's size.
use vstd::prelude::*;
use crate::ecs::archetype::{distinct, without, position_of, lemma_position_of, fresh_column_can_insert, ArchetypeRelationEdge, ArchetypeView};
use crate::ecs::archetype_registry::{first_archetype_with, lemma_first_archetype_with, ArchetypeRegistry};
use crate::ecs::component::{ComponentId, ComponentInfo, ComponentRegistry};
use crate::ecs::entity::{ArchetypeId, Entity, EntityRegistry, EntityRegistryView};
use crate::ecs::erased_vec::TypeInfo;

verus! {

/// Id of the empty archetype.
pub const EMPTY_ARCHETYPE_ID: ArchetypeId = 0;

/// Abstract state of a [`World`].
pub struct WorldView {
    pub entities: EntityRegistryView,
    pub archetypes: Seq<ArchetypeView>,
    pub components: Map<ComponentId, ComponentInfo>,
}

impl WorldView {
    /// The archetype that stores entity id `id`.
    pub open spec fn archetype_of(self, id: u32) -> Option<ArchetypeId> {
        if id < self.entities.locations.len() {
            match self.entities.locations[id as int] {
                Some((a, _)) => Some(a),
                None => None,
            }
        } else {
            None
        }
    }

    /// The components that entity id `id` has, in its archetype's order.
    pub open spec fn components_of(self, id: u32) -> Seq<ComponentId> {
        match self.archetype_of(id) {
            Some(a) => self.archetypes[a as int].components,
            None => Seq::empty(),
        }
    }

    /// The value of component `c` of entity id `id`.
    pub open spec fn value_of(self, id: u32, c: ComponentId) -> Option<Seq<u8>> {
        match self.archetype_of(id) {
            Some(a) => if self.archetypes[a as int].columns.contains_key(c)
                && self.archetypes[a as int].columns[c].contains_key(id as usize) {
                Some(self.archetypes[a as int].columns[c][id as usize])
            } else {
                None
            },
            None => None,
        }
    }

    /// Row recorded for entity id `id` fits in its archetype's entity list.
    pub open spec fn row_in_bounds(self, id: u32) -> bool {
        match self.entities.locations[id as int] {
            Some((a, row)) => row < self.archetypes[a as int].entities.len(),
            None => false,
        }
    }

    /// Every archetype of `self` is still in `other`, made of the same components with
    /// the same archetype-component ids.
    pub open spec fn keeps_archetypes(self, other: WorldView) -> bool {
        &&& self.archetypes.len() <= other.archetypes.len()
        &&& forall|a: int| 0 <= a < self.archetypes.len() ==> {
            &&& (#[trigger] other.archetypes[a]).components == self.archetypes[a].components
            &&& other.archetypes[a].component_archetype_ids == self.archetypes[a].component_archetype_ids
        }
    }

    /// No other entity changed: same components, same values.
    pub open spec fn others_unchanged(self, other: WorldView, id: u32) -> bool {
        &&& forall|e: u32| e != id ==> #[trigger] other.components_of(e) == self.components_of(e)
        &&& forall|e: u32, c: ComponentId| e != id ==> #[trigger] other.value_of(e, c) == self.value_of(e, c)
    }
}

/// `s` without `drop` (if given), followed by `new` (if given).
pub open spec fn moved_components(s: Seq<ComponentId>, drop: Option<ComponentId>, new: Option<ComponentId>) -> Seq<ComponentId> {
    let kept = match drop {
        Some(c) => without(s, c),
        None => s,
    };
    match new {
        Some(c) => kept.push(c),
        None => kept,
    }
}

/// The first `i` components of `s`, without `drop` (if given).
pub open spec fn prefix_without(s: Seq<ComponentId>, drop: Option<ComponentId>, i: int) -> Seq<ComponentId> {
    match drop {
        Some(c) => match position_of(s, c) {
            Some(p) => if p < i { s.subrange(0, i).remove(p) } else { s.subrange(0, i) },
            None => s.subrange(0, i),
        },
        None => s.subrange(0, i),
    }
}

/// A copy of `list`.
fn copy_components(list: &Vec<ComponentId>) -> (res: Vec<ComponentId>)
    ensures
        res@ == list@,
{
    let mut res: Vec<ComponentId> = Vec::new();
    let mut i: usize = 0;
    while i < list.len()
        invariant
            i <= list@.len(),
            res@ == list@.subrange(0, i as int),
        decreases list@.len() - i,
    {
        res.push(list[i]);
        i = i + 1;
    }
    assert(res@ =~= list@);
    res
}

/// `list` without its first `c`.
fn components_without(list: &Vec<ComponentId>, c: ComponentId) -> (res: Vec<ComponentId>)
    ensures
        res@ == without(list@, c),
{
    let mut res = copy_components(list);
    let mut i: usize = 0;
    proof { lemma_position_of(list@, c); }
    while i < res.len()
        invariant
            res@ == list@,
            i <= res@.len(),
            forall|j: int| 0 <= j < i ==> res@[j] != c,
            position_of(list@, c) matches Some(p) ==> 0 <= p < list@.len() && list@[p] == c && forall|j: int| 0 <= j < p ==> list@[j] != c,
            position_of(list@, c) is None <==> !list@.contains(c),
        decreases res@.len() - i,
    {
        if res[i] == c {
            proof {
                let p = position_of(list@, c)->0;
                assert(p == i);
            }
            res.remove(i);
            return res;
        }
        i = i + 1;
    }
    proof {
        if position_of(list@, c) is Some {
            let p = position_of(list@, c)->0;
            assert(list@[p] == c);
        }
    }
    res
}

/// A world of entities and their components.
pub struct World {
    entity_registry: EntityRegistry,
    archetype_registry: ArchetypeRegistry,
    component_registry: ComponentRegistry,
}

impl World {
    pub closed spec fn view(&self) -> WorldView {
        WorldView {
            entities: self.entity_registry.view(),
            archetypes: self.archetype_registry.view(),
            components: self.component_registry.view(),
        }
    }

    pub closed spec fn wf(&self) -> bool {
        let v = self.view();
        &&& self.entity_registry.wf()
        &&& self.archetype_registry.wf()
        &&& v.archetypes.len() >= 1
        &&& v.archetypes[0].components == Seq::<ComponentId>::empty()
        // Column types follow the component registry.
        &&& forall|a: int, c: ComponentId| 0 <= a < v.archetypes.len() && #[trigger] v.archetypes[a].columns.contains_key(c) ==> {
            &&& v.components.contains_key(c)
            &&& c < usize::MAX
            &&& v.archetypes[a].column_types[c] == v.components[c].type_info
        }
        // Every archetype lists distinct components.
        &&& forall|a: int| 0 <= a < v.archetypes.len() ==> distinct(#[trigger] v.archetypes[a].components)
        // A located entity has a value in every column of its archetype.
        &&& forall|e: int| 0 <= e < v.entities.locations.len() && #[trigger] v.entities.locations[e] is Some ==> {
            let a = (v.entities.locations[e]->0).0;
            &&& a < v.archetypes.len()
            &&& forall|c: ComponentId| #[trigger] v.archetypes[a as int].columns.contains_key(c) ==> v.archetypes[a as int].columns[c].contains_key(e as usize)
        }
        // A stored value belongs to an entity located in that archetype.
        &&& forall|a: int, c: ComponentId, e: usize| 0 <= a < v.archetypes.len() && v.archetypes[a].columns.contains_key(c)
            && #[trigger] v.archetypes[a].columns[c].contains_key(e) ==> {
            &&& e < v.entities.locations.len()
            &&& v.entities.locations[e as int] is Some
            &&& (v.entities.locations[e as int]->0).0 == a
        }
        // Ids waiting for reuse are not located, and wait only once.
        &&& forall|i: int| 0 <= i < v.entities.available.len() ==> #[trigger] v.entities.locations[v.entities.available[i] as int] is None
        &&& forall|i: int, j: int| 0 <= i < j < v.entities.available.len() ==> #[trigger] v.entities.available[i] != #[trigger] v.entities.available[j]
        // Edges lead to the archetypes with one component more or less.
        &&& forall|a: int, c: ComponentId| 0 <= a < v.archetypes.len() && #[trigger] v.archetypes[a].edges.contains_key(c) ==> {
            let edge = v.archetypes[a].edges[c];
            &&& (edge.add matches Some(b) ==> b < v.archetypes.len() && v.archetypes[b as int].components == v.archetypes[a].components.push(c))
            &&& (edge.remove matches Some(b) ==> b < v.archetypes.len() && v.archetypes[b as int].components == without(v.archetypes[a].components, c))
        }
    }

    /// A world holding only the empty archetype.
    pub fn new() -> (res: Self)
        ensures
            res.wf(),
            res.view().entities.generations.len() == 0,
            res.view().entities.count == 0,
            res.view().archetypes.len() == 1,
            res.view().components == Map::<ComponentId, ComponentInfo>::empty(),
    {
        let mut world = World {
            entity_registry: EntityRegistry::new(),
            archetype_registry: ArchetypeRegistry::new(),
            component_registry: ComponentRegistry::new(),
        };
        let empty: Vec<ComponentId> = Vec::new();
        world.archetype_registry.register(&world.component_registry, &empty);
        proof {
            let v = world.view();
            assert(empty@ =~= Seq::<ComponentId>::empty());
            assert forall|a: int, c: ComponentId| 0 <= a < v.archetypes.len() && #[trigger] v.archetypes[a].columns.contains_key(c) implies false by {
                assert(!empty@.contains(c));
            }
            assert forall|a: int, c: ComponentId| 0 <= a < v.archetypes.len() && #[trigger] v.archetypes[a].edges.contains_key(c) implies false by {
            }
            assert forall|a: int, c: ComponentId, e: usize| 0 <= a < v.archetypes.len() && v.archetypes[a].columns.contains_key(c)
                && #[trigger] v.archetypes[a].columns[c].contains_key(e) implies false by {
                assert(!empty@.contains(c));
            }
            assert forall|a: int| 0 <= a < v.archetypes.len() implies distinct(#[trigger] v.archetypes[a].components) by {
            }
            assert(world.entity_registry.wf());
            assert(world.archetype_registry.wf());
            world.entity_registry.lemma_view_wf();
            assert(v.entities.locations.len() == 0);
        }
        world
    }

    /// The archetype that an entity of archetype `src` moves to when its components become
    /// `target`, given the cached edge `edge`, can take it without an overflow or an invalid layout.
    pub closed spec fn can_move_to(&self, target: Seq<ComponentId>, edge: Option<ArchetypeId>) -> bool {
        let v = self.view();
        match edge {
            Some(b) => self.archetype_registry.can_insert_row_into(b as int),
            None => match first_archetype_with(v.archetypes, target, 0) {
                Some(k) => self.archetype_registry.can_insert_row_into(k),
                None => self.archetype_registry.can_register(target.len())
                    && forall|i: int| 0 <= i < target.len() ==> #[trigger] fresh_column_can_insert(v.components[target[i]].type_info),
            },
        }
    }

    /// Adding `component` to the entity id `id` does not overflow a counter or make an
    /// invalid memory layout.
    pub closed spec fn can_add(&self, id: u32, component: ComponentId) -> bool {
        let v = self.view();
        let src = (v.entities.locations[id as int]->0).0;
        self.can_move_to(v.archetypes[src as int].components.push(component), v.archetypes[src as int].edge(component).add)
    }

    /// Removing `component` from the entity id `id` does not overflow a counter or make an
    /// invalid memory layout.
    pub closed spec fn can_remove(&self, id: u32, component: ComponentId) -> bool {
        let v = self.view();
        let src = (v.entities.locations[id as int]->0).0;
        self.can_move_to(without(v.archetypes[src as int].components, component), v.archetypes[src as int].edge(component).remove)
    }

    /// Spawn an entity without components (in the empty archetype).
    pub fn spawn(&mut self) -> (entity: Entity)
        requires
            old(self).wf(),
            old(self).view().entities.can_alloc(),
        ensures
            old(self).view().keeps_archetypes(final(self).view()),
            final(self).wf(),
            entity == old(self).view().entities.next_entity(),
            final(self).view().entities == (EntityRegistryView {
                locations: old(self).view().entities.after_alloc().locations.update(entity.id as int,
                    Some((EMPTY_ARCHETYPE_ID, old(self).view().archetypes[0].entities.len() as usize))),
                ..old(self).view().entities.after_alloc()
            }),
            final(self).view().entities.is_valid(entity),
            final(self).view().components == old(self).view().components,
            final(self).view().archetypes.len() == old(self).view().archetypes.len(),
            final(self).view().components_of(entity.id) == Seq::<ComponentId>::empty(),
            forall|c: ComponentId| #[trigger] final(self).view().value_of(entity.id, c) is None,
            old(self).view().others_unchanged(final(self).view(), entity.id),
    {
        let ghost v0 = self.view();
        proof {
            self.entity_registry.lemma_view_wf();
            self.archetype_registry.lemma_columns_match_components();
            assert(v0.archetypes[0].columns.dom() =~= Set::<ComponentId>::empty()) by {
                assert forall|c: ComponentId| !#[trigger] v0.archetypes[0].columns.contains_key(c) by {
                    if v0.archetypes[0].columns.contains_key(c) {
                        assert(v0.archetypes[0].components.contains(c));
                    }
                }
            }
            self.archetype_registry.lemma_no_columns_can_insert(0);
        }
        let entity = self.entity_registry.allocate();
        let idx = self.archetype_registry.insert_row(EMPTY_ARCHETYPE_ID, entity, Vec::new());
        self.entity_registry.set_archetype_id(entity, EMPTY_ARCHETYPE_ID, idx);
        proof {
            self.entity_registry.lemma_view_wf();
            let v = self.view();
            let id = entity.id;
            // The id had no location and no stored value before.
            if v0.entities.available.len() > 0 {
                assert(v0.entities.available.last() == id);
                assert(v0.entities.locations[id as int] is None);
            }
            assert forall|a: int, c: ComponentId| 0 <= a < v0.archetypes.len() && v0.archetypes[a].columns.contains_key(c)
                implies !v0.archetypes[a].columns[c].contains_key(id as usize) by {
            }
            self.archetype_registry.lemma_columns_match_components();
            assert(v.archetypes[0].columns.dom() =~= Set::<ComponentId>::empty());
            assert forall|a: int| 0 <= a < v.archetypes.len() && a != 0 implies #[trigger] v.archetypes[a] == v0.archetypes[a] by {}
            assert forall|a: int, c: ComponentId| 0 <= a < v.archetypes.len() && #[trigger] v.archetypes[a].columns.contains_key(c) implies {
                &&& v.components.contains_key(c)
                &&& c < usize::MAX
                &&& v.archetypes[a].column_types[c] == v.components[c].type_info
            } by {
                if a == 0 {
                    assert(!v.archetypes[0].columns.dom().contains(c));
                } else {
                    assert(v.archetypes[a] == v0.archetypes[a]);
                }
            }
            assert forall|a: int| 0 <= a < v.archetypes.len() implies distinct(#[trigger] v.archetypes[a].components) by {
                if a != 0 { assert(v.archetypes[a] == v0.archetypes[a]); }
            }
            assert forall|e: int| 0 <= e < v.entities.locations.len() && #[trigger] v.entities.locations[e] is Some implies {
                let a = (v.entities.locations[e]->0).0;
                &&& a < v.archetypes.len()
                &&& forall|c: ComponentId| #[trigger] v.archetypes[a as int].columns.contains_key(c) ==> v.archetypes[a as int].columns[c].contains_key(e as usize)
            } by {
                if e != id {
                    assert(v.entities.locations[e] == v0.entities.locations[e]);
                    let a = (v.entities.locations[e]->0).0;
                    if a != 0 {
                        assert(v.archetypes[a as int] == v0.archetypes[a as int]);
                    } else {
                        assert forall|c: ComponentId| !#[trigger] v.archetypes[0].columns.contains_key(c) by {
                            assert(!v.archetypes[0].columns.dom().contains(c));
                        }
                    }
                } else {
                    assert forall|c: ComponentId| !#[trigger] v.archetypes[0].columns.contains_key(c) by {
                        assert(!v.archetypes[0].columns.dom().contains(c));
                    }
                }
            }
            assert forall|a: int, c: ComponentId, e: usize| 0 <= a < v.archetypes.len() && v.archetypes[a].columns.contains_key(c)
                && #[trigger] v.archetypes[a].columns[c].contains_key(e) implies {
                &&& e < v.entities.locations.len()
                &&& v.entities.locations[e as int] is Some
                &&& (v.entities.locations[e as int]->0).0 == a
            } by {
                if a == 0 {
                    assert(!v.archetypes[0].columns.dom().contains(c));
                } else {
                    assert(v.archetypes[a] == v0.archetypes[a]);
                    assert(v0.archetypes[a].columns[c].contains_key(e));
                    assert(e != id);
                }
            }
            assert forall|i: int| 0 <= i < v.entities.available.len() implies #[trigger] v.entities.locations[v.entities.available[i] as int] is None by {
                assert(v.entities.available[i] == v0.entities.available[i]);
                if v0.entities.available.len() > 0 {
                    assert(v0.entities.available[i] != v0.entities.available[v0.entities.available.len() - 1]);
                }
            }
            assert forall|i: int, j: int| 0 <= i < j < v.entities.available.len() implies #[trigger] v.entities.available[i] != #[trigger] v.entities.available[j] by {
                assert(v.entities.available[i] == v0.entities.available[i]);
                assert(v.entities.available[j] == v0.entities.available[j]);
            }
            assert forall|a: int, c: ComponentId| 0 <= a < v.archetypes.len() && #[trigger] v.archetypes[a].edges.contains_key(c) implies {
                let edge = v.archetypes[a].edges[c];
                &&& (edge.add matches Some(b) ==> b < v.archetypes.len() && v.archetypes[b as int].components == v.archetypes[a].components.push(c))
                &&& (edge.remove matches Some(b) ==> b < v.archetypes.len() && v.archetypes[b as int].components == without(v.archetypes[a].components, c))
            } by {
                assert(v0.archetypes[a].edges.contains_key(c));
                let edge = v0.archetypes[a].edges[c];
                if let Some(b) = edge.add {
                    assert(v.archetypes[b as int].components == v0.archetypes[b as int].components);
                }
                if let Some(b) = edge.remove {
                    assert(v.archetypes[b as int].components == v0.archetypes[b as int].components);
                }
            }
            assert forall|e: u32| e != id implies #[trigger] v.components_of(e) == v0.components_of(e) by {}
            assert forall|e: u32, c: ComponentId| e != id implies #[trigger] v.value_of(e, c) == v0.value_of(e, c) by {
                if let Some(a) = v0.archetype_of(e) {
                    if a != 0 {
                        assert(v.archetypes[a as int] == v0.archetypes[a as int]);
                    }
                }
            }
            assert forall|c: ComponentId| #[trigger] v.value_of(id, c) is None by {
                assert(!v.archetypes[0].columns.dom().contains(c));
            }
        }
        entity
    }

    /// Destroy `entity`: its values are dropped and its id freed for reuse.
    pub fn destroy(&mut self, entity: Entity) -> (removed: Vec<(ComponentId, Vec<u8>)>)
        requires
            old(self).wf(),
            entity.id < old(self).view().entities.next_id(),
            old(self).view().entities.locations[entity.id as int] is Some,
            old(self).view().row_in_bounds(entity.id),
            old(self).view().entities.can_free(entity),
        ensures
            old(self).view().keeps_archetypes(final(self).view()),
            final(self).wf(),
            final(self).view().entities == old(self).view().entities.after_free(entity),
            final(self).view().components == old(self).view().components,
            final(self).view().archetypes.len() == old(self).view().archetypes.len(),
            final(self).view().components_of(entity.id) == Seq::<ComponentId>::empty(),
            forall|c: ComponentId| #[trigger] final(self).view().value_of(entity.id, c) is None,
            old(self).view().others_unchanged(final(self).view(), entity.id),
            removed@.len() == old(self).view().components_of(entity.id).len(),
            forall|k: int| 0 <= k < removed@.len() ==> (#[trigger] removed@[k]).0 == old(self).view().components_of(entity.id)[k]
                && old(self).view().value_of(entity.id, removed@[k].0) == Some(removed@[k].1@),
    {
        let ghost v0 = self.view();
        proof {
            self.entity_registry.lemma_view_wf();
            self.archetype_registry.lemma_columns_match_components();
            assert(v0.entities.locations[entity.id as int] is Some);
        }
        let (archetype_id, archetype_idx) = self.entity_registry.archetype_id(entity);
        let removed = self.archetype_registry.remove_row(archetype_id, archetype_idx, entity);
        proof {
            let a0 = archetype_id as int;
            assert forall|k: int| 0 <= k < removed@.len() implies (#[trigger] removed@[k]).0 == v0.components_of(entity.id)[k]
                && v0.value_of(entity.id, removed@[k].0) == Some(removed@[k].1@) by {
                let c = v0.archetypes[a0].components[k];
                assert(v0.archetypes[a0].components.contains(c));
                assert(v0.archetypes[a0].columns.contains_key(c));
            }
        }
        self.entity_registry.free(entity);
        proof {
            self.entity_registry.lemma_view_wf();
            self.archetype_registry.lemma_columns_match_components();
            let v = self.view();
            let id = entity.id;
            let a0 = archetype_id as int;
            assert forall|a: int| 0 <= a < v.archetypes.len() && a != a0 implies #[trigger] v.archetypes[a] == v0.archetypes[a] by {}
            assert forall|a: int, c: ComponentId| 0 <= a < v.archetypes.len() && #[trigger] v.archetypes[a].columns.contains_key(c) implies {
                &&& v.components.contains_key(c)
                &&& c < usize::MAX
                &&& v.archetypes[a].column_types[c] == v.components[c].type_info
            } by {
                if a != a0 {
                    assert(v.archetypes[a] == v0.archetypes[a]);
                } else {
                    assert(v0.archetypes[a].columns.contains_key(c));
                }
            }
            assert forall|a: int| 0 <= a < v.archetypes.len() implies distinct(#[trigger] v.archetypes[a].components) by {
                if a != a0 { assert(v.archetypes[a] == v0.archetypes[a]); }
            }
            assert forall|e: int| 0 <= e < v.entities.locations.len() && #[trigger] v.entities.locations[e] is Some implies {
                let a = (v.entities.locations[e]->0).0;
                &&& a < v.archetypes.len()
                &&& forall|c: ComponentId| #[trigger] v.archetypes[a as int].columns.contains_key(c) ==> v.archetypes[a as int].columns[c].contains_key(e as usize)
            } by {
                assert(e != id);
                assert(v.entities.locations[e] == v0.entities.locations[e]);
                let a = (v.entities.locations[e]->0).0;
                if a != a0 {
                    assert(v.archetypes[a as int] == v0.archetypes[a as int]);
                } else {
                    assert forall|c: ComponentId| #[trigger] v.archetypes[a as int].columns.contains_key(c) implies v.archetypes[a as int].columns[c].contains_key(e as usize) by {
                        assert(v0.archetypes[a as int].columns.contains_key(c));
                        assert(v0.archetypes[a as int].columns[c].contains_key(e as usize));
                    }
                }
            }
            assert forall|a: int, c: ComponentId, e: usize| 0 <= a < v.archetypes.len() && v.archetypes[a].columns.contains_key(c)
                && #[trigger] v.archetypes[a].columns[c].contains_key(e) implies {
                &&& e < v.entities.locations.len()
                &&& v.entities.locations[e as int] is Some
                &&& (v.entities.locations[e as int]->0).0 == a
            } by {
                if a != a0 {
                    assert(v.archetypes[a] == v0.archetypes[a]);
                    assert(v0.archetypes[a].columns[c].contains_key(e));
                    assert(e != id);
                } else {
                    assert(v0.archetypes[a].columns.contains_key(c));
                    assert(v0.archetypes[a].columns[c].contains_key(e));
                    assert(e != id as usize);
                }
            }
            assert forall|i: int| 0 <= i < v.entities.available.len() implies #[trigger] v.entities.locations[v.entities.available[i] as int] is None by {
                if i < v0.entities.available.len() {
                    assert(v.entities.available[i] == v0.entities.available[i]);
                }
            }
            assert forall|i: int, j: int| 0 <= i < j < v.entities.available.len() implies #[trigger] v.entities.available[i] != #[trigger] v.entities.available[j] by {
                if j == v0.entities.available.len() {
                    assert(v.entities.available[i] == v0.entities.available[i]);
                    assert(v0.entities.locations[v0.entities.available[i] as int] is None);
                } else {
                    assert(v.entities.available[i] == v0.entities.available[i]);
                    assert(v.entities.available[j] == v0.entities.available[j]);
                }
            }
            assert forall|a: int, c: ComponentId| 0 <= a < v.archetypes.len() && #[trigger] v.archetypes[a].edges.contains_key(c) implies {
                let edge = v.archetypes[a].edges[c];
                &&& (edge.add matches Some(b) ==> b < v.archetypes.len() && v.archetypes[b as int].components == v.archetypes[a].components.push(c))
                &&& (edge.remove matches Some(b) ==> b < v.archetypes.len() && v.archetypes[b as int].components == without(v.archetypes[a].components, c))
            } by {
                assert(v0.archetypes[a].edges.contains_key(c));
                let edge = v0.archetypes[a].edges[c];
                if let Some(b) = edge.add {
                    assert(v.archetypes[b as int].components == v0.archetypes[b as int].components);
                }
                if let Some(b) = edge.remove {
                    assert(v.archetypes[b as int].components == v0.archetypes[b as int].components);
                }
            }
            assert forall|e: u32| e != id implies #[trigger] v.components_of(e) == v0.components_of(e) by {}
            assert forall|e: u32, c: ComponentId| e != id implies #[trigger] v.value_of(e, c) == v0.value_of(e, c) by {
                if let Some(a) = v0.archetype_of(e) {
                    if a != a0 {
                        assert(v.archetypes[a as int] == v0.archetypes[a as int]);
                    } else if v0.archetypes[a as int].columns.contains_key(c) {
                        assert(v.archetypes[a as int].columns[c] == v0.archetypes[a as int].columns[c].remove(id as usize));
                    }
                }
            }
        }
        removed
    }

    /// Move `entity` from archetype `src` to archetype `dst`, dropping the value of `drop`
    /// and storing `new_value`; every other value moves along.
    fn move_entity_to_archetype(
        &mut self,
        entity: Entity,
        src: ArchetypeId,
        dst: ArchetypeId,
        drop: Option<ComponentId>,
        new_value: Option<(ComponentId, Vec<u8>)>,
    ) -> (removed: Vec<(ComponentId, Vec<u8>)>)
        requires
            old(self).wf(),
            entity.id < old(self).view().entities.next_id(),
            old(self).view().entities.locations[entity.id as int] is Some,
            (old(self).view().entities.locations[entity.id as int]->0).0 == src,
            old(self).view().row_in_bounds(entity.id),
            dst < old(self).view().archetypes.len(),
            src < old(self).view().archetypes.len(),
            dst != src,
            old(self).view().archetypes[dst as int].components == moved_components(
                old(self).view().archetypes[src as int].components, drop,
                match new_value { Some((c, _)) => Some(c), None => None }),
            drop matches Some(c) ==> old(self).view().archetypes[src as int].components.contains(c),
            new_value matches Some((c, v)) ==> old(self).view().components.contains_key(c)
                && v@.len() == old(self).view().components[c].type_info.size,
            old(self).archetype_registry.can_insert_row_into(dst as int),
        ensures
            old(self).view().keeps_archetypes(final(self).view()),
            final(self).wf(),
            final(self).view().entities == (EntityRegistryView {
                locations: old(self).view().entities.locations.update(entity.id as int,
                    Some((dst, old(self).view().archetypes[dst as int].entities.len() as usize))),
                ..old(self).view().entities
            }),
            final(self).view().components == old(self).view().components,
            final(self).view().archetypes.len() == old(self).view().archetypes.len(),
            final(self).view().components_of(entity.id) == old(self).view().archetypes[dst as int].components,
            forall|c: ComponentId| #[trigger] final(self).view().value_of(entity.id, c) == (
                if new_value is Some && c == (new_value->0).0 { Some((new_value->0).1@) }
                else if old(self).view().archetypes[dst as int].components.contains(c) { old(self).view().value_of(entity.id, c) }
                else { None }),
            old(self).view().others_unchanged(final(self).view(), entity.id),
            removed@.len() == old(self).view().archetypes[src as int].components.len(),
            forall|k: int| 0 <= k < removed@.len() ==> (#[trigger] removed@[k]).0 == old(self).view().archetypes[src as int].components[k]
                && old(self).view().value_of(entity.id, removed@[k].0) == Some(removed@[k].1@),
    {
        let ghost v0 = self.view();
        let ghost id = entity.id;
        let ghost ss = v0.archetypes[src as int].components;
        proof {
            self.entity_registry.lemma_view_wf();
            self.archetype_registry.lemma_columns_match_components();
            assert(v0.entities.locations[id as int] is Some);
            lemma_position_of(ss, drop->0);
        }
        let mut values: Vec<(ComponentId, Vec<u8>)> = Vec::new();
        {
            let src_archetype = self.archetype_registry.get(src);
            let list = src_archetype.components();
            let mut i: usize = 0;
            while i < list.len()
                invariant
                    i <= list@.len(),
                    id == entity.id,
                    list@ == ss,
                    src_archetype.view() == v0.archetypes[src as int],
                    src_archetype.wf(),
                    distinct(ss),
                    drop matches Some(c) ==> ss.contains(c),
                    position_of(ss, drop->0) matches Some(p) ==> 0 <= p < ss.len() && ss[p] == drop->0 && forall|j: int| 0 <= j < p ==> ss[j] != drop->0,
                    forall|c: ComponentId| #[trigger] v0.archetypes[src as int].columns.contains_key(c) <==> ss.contains(c),
                    forall|c: ComponentId| #[trigger] v0.archetypes[src as int].columns.contains_key(c) ==> v0.archetypes[src as int].columns[c].contains_key(id as usize),
                    values@.len() == prefix_without(ss, drop, i as int).len(),
                    forall|k: int| 0 <= k < values@.len() ==> #[trigger] values@[k].0 == prefix_without(ss, drop, i as int)[k],
                    forall|k: int| 0 <= k < values@.len() ==> #[trigger] v0.archetypes[src as int].columns[values@[k].0][id as usize] == values@[k].1@,
                decreases list@.len() - i,
            {
                let c = list[i];
                let skip = match drop {
                    Some(d) => d == c,
                    None => false,
                };
                let ghost before = prefix_without(ss, drop, i as int);
                proof {
                    if skip {
                        assert(position_of(ss, c) == Some(i as int)) by {
                            lemma_position_of(ss, c);
                            let p = position_of(ss, c)->0;
                            assert(ss[p] == c);
                        }
                        assert(prefix_without(ss, drop, i + 1) =~= before);
                    } else {
                        if let Some(d) = drop {
                            if let Some(p) = position_of(ss, d) {
                                if p < i {
                                    assert(prefix_without(ss, drop, i + 1) =~= before.push(c));
                                } else {
                                    assert(p != i);
                                    assert(prefix_without(ss, drop, i + 1) =~= before.push(c));
                                }
                            } else {
                                assert(prefix_without(ss, drop, i + 1) =~= before.push(c));
                            }
                        } else {
                            assert(prefix_without(ss, drop, i + 1) =~= before.push(c));
                        }
                    }
                }
                if !skip {
                    assert(ss.contains(c));
                    assert(v0.archetypes[src as int].columns.contains_key(c));
                    assert(v0.archetypes[src as int].columns[c].contains_key(id as usize));
                    assert(src_archetype.view().columns.contains_key(c));
                    assert(src_archetype.view().columns[c].contains_key(entity.id as usize));
                    let opt = src_archetype.component_value(c, entity.id as usize);
                    assert(opt is Some);
                    let value = match opt {
                        Some(v) => crate::ecs::erased_vec::copy_bytes(v.as_slice()),
                        None => Vec::new(),
                    };
                    assert(value@ == v0.archetypes[src as int].columns[c][id as usize]);
                    values.push((c, value));
                    assert(values@[values@.len() - 1].1@ == v0.archetypes[src as int].columns[c][id as usize]);
                }
                i = i + 1;
            }
            proof {
                let fin = prefix_without(ss, drop, ss.len() as int);
                assert(ss.subrange(0, ss.len() as int) =~= ss);
                assert(fin == match drop { Some(c) => without(ss, c), None => ss });
            }
        }
        let ghost kept = values@;
        let ghost new_c: Option<ComponentId> = match new_value { Some((c, _)) => Some(c), None => None };
        match new_value {
            Some((c, v)) => { values.push((c, v)); },
            None => {},
        }
        proof {
            let ds = v0.archetypes[dst as int].components;
            assert(values@.len() == ds.len());
            assert forall|k: int| 0 <= k < values@.len() implies #[trigger] values@[k].0 == ds[k] by {
                if k < kept.len() {
                    assert(values@[k] == kept[k]);
                }
            }
            assert forall|c: ComponentId| #[trigger] v0.archetypes[dst as int].columns.contains_key(c) implies
                !v0.archetypes[dst as int].columns[c].contains_key(id as usize) by {
                if v0.archetypes[dst as int].columns[c].contains_key(id as usize) {
                    assert((v0.entities.locations[id as int]->0).0 == dst);
                }
            }
            assert forall|k: int| 0 <= k < values@.len() implies #[trigger] values@[k].1@.len() == v0.archetypes[dst as int].column_types[values@[k].0].size by {
                let c = values@[k].0;
                assert(ds.contains(c)) by { assert(ds[k] == c); }
                assert(v0.archetypes[dst as int].columns.contains_key(c));
                if k < kept.len() {
                    assert(values@[k] == kept[k]);
                    assert(ss.contains(c)) by {
                        if let Some(d) = drop {
                            if let Some(p) = position_of(ss, d) {
                                if k < p { assert(ss[k] == c); } else { assert(ss[k + 1] == c); }
                            } else {
                                assert(ss[k] == c);
                            }
                        } else {
                            assert(ss[k] == c);
                        }
                    }
                    assert(v0.archetypes[src as int].columns.contains_key(c));
                    assert(v0.archetypes[src as int].columns[c].contains_key(id as usize));
                }
            }
        }
        let ghost vals = values@;
        let new_row = self.archetype_registry.insert_row(dst, entity, values);
        let row = match self.entity_registry.location(entity) {
            Some((_, r)) => r,
            None => 0,
        };
        let removed = self.archetype_registry.remove_row(src, row, entity);
        proof {
            assert forall|k: int| 0 <= k < removed@.len() implies (#[trigger] removed@[k]).0 == v0.archetypes[src as int].components[k]
                && v0.value_of(entity.id, removed@[k].0) == Some(removed@[k].1@) by {
                let c = v0.archetypes[src as int].components[k];
                assert(v0.archetypes[src as int].components.contains(c));
                assert(v0.archetypes[src as int].columns.contains_key(c));
                assert(v0.archetype_of(entity.id) == Some(src));
            }
        }
        self.entity_registry.set_archetype_id(entity, dst, new_row);
        proof {
            self.entity_registry.lemma_view_wf();
            self.archetype_registry.lemma_columns_match_components();
            let v = self.view();
            let s0 = src as int;
            let d0 = dst as int;
            let ds = v0.archetypes[d0].components;
            assert forall|a: int| 0 <= a < v.archetypes.len() && a != s0 && a != d0 implies #[trigger] v.archetypes[a] == v0.archetypes[a] by {}
            assert(v.archetypes[s0].components == ss);
            assert(v.archetypes[d0].components == ds);
            // Values of the moved entity in its new archetype.
            assert forall|c: ComponentId| #[trigger] v.archetypes[d0].columns.contains_key(c) implies
                v.archetypes[d0].columns[c] == v0.archetypes[d0].columns[c].insert(id as usize,
                    if new_value is Some && c == (new_value->0).0 { (new_value->0).1@ } else { v0.archetypes[s0].columns[c][id as usize] }) by {
                assert(ds.contains(c));
                let k = choose|k: int| 0 <= k < ds.len() && #[trigger] ds[k] == c;
                assert(vals[k].0 == c);
                if k < kept.len() {
                    assert(vals[k] == kept[k]);
                    assert(distinct(ds));
                    if new_value is Some {
                        assert(ds[ds.len() - 1] == (new_value->0).0);
                        assert(k != ds.len() - 1);
                    }
                } else {
                    assert(new_value is Some);
                }
            }
            assert forall|a: int, c: ComponentId| 0 <= a < v.archetypes.len() && #[trigger] v.archetypes[a].columns.contains_key(c) implies {
                &&& v.components.contains_key(c)
                &&& c < usize::MAX
                &&& v.archetypes[a].column_types[c] == v.components[c].type_info
            } by {
                assert(v0.archetypes[a].columns.contains_key(c));
            }
            assert forall|a: int| 0 <= a < v.archetypes.len() implies distinct(#[trigger] v.archetypes[a].components) by {
                assert(distinct(v0.archetypes[a].components));
            }
            assert forall|e: int| 0 <= e < v.entities.locations.len() && #[trigger] v.entities.locations[e] is Some implies {
                let a = (v.entities.locations[e]->0).0;
                &&& a < v.archetypes.len()
                &&& forall|c: ComponentId| #[trigger] v.archetypes[a as int].columns.contains_key(c) ==> v.archetypes[a as int].columns[c].contains_key(e as usize)
            } by {
                if e != id {
                    assert(v.entities.locations[e] == v0.entities.locations[e]);
                    let a = (v.entities.locations[e]->0).0;
                    assert forall|c: ComponentId| #[trigger] v.archetypes[a as int].columns.contains_key(c) implies v.archetypes[a as int].columns[c].contains_key(e as usize) by {
                        assert(v0.archetypes[a as int].columns.contains_key(c));
                        assert(v0.archetypes[a as int].columns[c].contains_key(e as usize));
                    }
                }
            }
            assert forall|a: int, c: ComponentId, e: usize| 0 <= a < v.archetypes.len() && v.archetypes[a].columns.contains_key(c)
                && #[trigger] v.archetypes[a].columns[c].contains_key(e) implies {
                &&& e < v.entities.locations.len()
                &&& v.entities.locations[e as int] is Some
                &&& (v.entities.locations[e as int]->0).0 == a
            } by {
                assert(v0.archetypes[a].columns.contains_key(c));
                if e != id as usize {
                    assert(v0.archetypes[a].columns[c].contains_key(e));
                } else {
                    assert(a == d0);
                }
            }
            assert forall|i: int| 0 <= i < v.entities.available.len() implies #[trigger] v.entities.locations[v.entities.available[i] as int] is None by {
                assert(v0.entities.locations[v0.entities.available[i] as int] is None);
            }
            assert forall|a: int, c: ComponentId| 0 <= a < v.archetypes.len() && #[trigger] v.archetypes[a].edges.contains_key(c) implies {
                let edge = v.archetypes[a].edges[c];
                &&& (edge.add matches Some(b) ==> b < v.archetypes.len() && v.archetypes[b as int].components == v.archetypes[a].components.push(c))
                &&& (edge.remove matches Some(b) ==> b < v.archetypes.len() && v.archetypes[b as int].components == without(v.archetypes[a].components, c))
            } by {
                assert(v0.archetypes[a].edges.contains_key(c));
                let edge = v0.archetypes[a].edges[c];
                if let Some(b) = edge.add {
                    assert(v.archetypes[b as int].components == v0.archetypes[b as int].components);
                }
                if let Some(b) = edge.remove {
                    assert(v.archetypes[b as int].components == v0.archetypes[b as int].components);
                }
            }
            assert forall|e: u32| e != id implies #[trigger] v.components_of(e) == v0.components_of(e) by {}
            assert forall|e: u32, c: ComponentId| e != id implies #[trigger] v.value_of(e, c) == v0.value_of(e, c) by {
                if let Some(a) = v0.archetype_of(e) {
                    if v0.archetypes[a as int].columns.contains_key(c) {
                        assert(v.archetypes[a as int].columns.contains_key(c));
                    }
                }
            }
            assert forall|c: ComponentId| #[trigger] v.value_of(id, c) == (
                if new_value is Some && c == (new_value->0).0 { Some((new_value->0).1@) }
                else if ds.contains(c) { v0.value_of(id, c) }
                else { None }) by {
                assert(v.entities.locations[id as int] == Some((dst, new_row)));
                assert(v.archetype_of(id) == Some(dst));
                if new_value is Some {
                    assert(ds[ds.len() - 1] == (new_value->0).0);
                    assert(ds.contains((new_value->0).0));
                }
                if v.archetypes[d0].columns.contains_key(c) {
                    assert(ds.contains(c));
                    assert(v.archetypes[d0].columns[c].contains_key(id as usize));
                    if !(new_value is Some && c == (new_value->0).0) {
                        let k = choose|k: int| 0 <= k < ds.len() && #[trigger] ds[k] == c;
                        assert(vals[k].0 == c);
                        if new_value is Some {
                            assert(k != ds.len() - 1);
                        }
                        assert(k < kept.len());
                        assert(vals[k] == kept[k]);
                        assert(ss.contains(c)) by {
                            if let Some(dd) = drop {
                                if let Some(p) = position_of(ss, dd) {
                                    if k < p { assert(ss[k] == c); } else { assert(ss[k + 1] == c); }
                                } else {
                                    assert(ss[k] == c);
                                }
                            } else {
                                assert(ss[k] == c);
                            }
                        }
                        assert(v0.archetypes[s0].columns.contains_key(c));
                        assert(v0.entities.locations[id as int] is Some);
                        assert(v0.archetypes[s0].columns[c].contains_key(id as usize));
                        assert(v0.archetype_of(id) == Some(src));
                    }
                } else {
                    assert(!ds.contains(c));
                }
            }
        }
        removed
    }

    /// Find (or register) the archetype made of `target`, the archetype that archetype `src`
    /// leads to when `component` is added (`adding`) or removed, and record the edge.
    fn target_archetype(&mut self, src: ArchetypeId, component: ComponentId, target: Vec<ComponentId>, adding: bool) -> (dst: ArchetypeId)
        requires
            old(self).wf(),
            src < old(self).view().archetypes.len(),
            old(self).can_move_to(target@, if adding { old(self).view().archetypes[src as int].edge(component).add }
                else { old(self).view().archetypes[src as int].edge(component).remove }),
            target@ == if adding { old(self).view().archetypes[src as int].components.push(component) }
                else { without(old(self).view().archetypes[src as int].components, component) },
            !adding ==> old(self).view().archetypes[src as int].components.contains(component),
            distinct(target@),
            forall|i: int| 0 <= i < target@.len() ==> #[trigger] target@[i] < usize::MAX,
            forall|i: int| 0 <= i < target@.len() ==> old(self).view().components.contains_key(#[trigger] target@[i]),
        ensures
            old(self).view().keeps_archetypes(final(self).view()),
            final(self).wf(),
            dst < final(self).view().archetypes.len(),
            dst != src,
            final(self).view().archetypes[dst as int].components == target@,
            final(self).archetype_registry.can_insert_row_into(dst as int),
            final(self).view().entities == old(self).view().entities,
            final(self).view().components == old(self).view().components,
            final(self).view().archetypes.len() >= old(self).view().archetypes.len(),
            forall|a: int| 0 <= a < old(self).view().archetypes.len() ==>
                (#[trigger] final(self).view().archetypes[a]).components == old(self).view().archetypes[a].components
                && final(self).view().archetypes[a].columns == old(self).view().archetypes[a].columns
                && final(self).view().archetypes[a].entities == old(self).view().archetypes[a].entities,
    {
        let ghost v0 = self.view();
        let edge = self.archetype_registry.get(src).edge(&component);
        let cached = if adding { edge.add } else { edge.remove };
        proof {
            self.archetype_registry.lemma_columns_match_components();
            lemma_position_of(v0.archetypes[src as int].components, component);
            assert(target@.len() != v0.archetypes[src as int].components.len());
            lemma_first_archetype_with(v0.archetypes, target@, 0);
            if v0.archetypes[src as int].edges.contains_key(component) {
                assert(v0.archetypes[src as int].edges.contains_key(component));
            }
        }
        match cached {
            Some(b) => b,
            None => {
                let found = self.archetype_registry.find(&target);
                let b = match found {
                    Some(k) => k,
                    None => {
                        let k = self.archetype_registry.register(&self.component_registry, &target);
                        proof {
                            self.archetype_registry.lemma_columns_match_components();
                            let v = self.view();
                            assert forall|a: int| 0 <= a < v0.archetypes.len() implies #[trigger] v.archetypes[a] == v0.archetypes[a] by {}
                            assert forall|a: int, c: ComponentId| 0 <= a < v.archetypes.len() && #[trigger] v.archetypes[a].columns.contains_key(c) implies {
                                &&& v.components.contains_key(c)
                                &&& c < usize::MAX
                                &&& v.archetypes[a].column_types[c] == v.components[c].type_info
                            } by {
                                if a == k {
                                    let i = choose|i: int| 0 <= i < target@.len() && #[trigger] target@[i] == c;
                                }
                            }
                            assert forall|a: int, c: ComponentId, e: usize| 0 <= a < v.archetypes.len() && v.archetypes[a].columns.contains_key(c)
                                && #[trigger] v.archetypes[a].columns[c].contains_key(e) implies {
                                &&& e < v.entities.locations.len()
                                &&& v.entities.locations[e as int] is Some
                                &&& (v.entities.locations[e as int]->0).0 == a
                            } by {
                                if a == k {
                                    assert(v.archetypes[a].columns[c] == Map::<usize, Seq<u8>>::empty());
                                }
                            }
                            assert forall|e: int| 0 <= e < v.entities.locations.len() && #[trigger] v.entities.locations[e] is Some implies {
                                let a = (v.entities.locations[e]->0).0;
                                &&& a < v.archetypes.len()
                                &&& forall|c: ComponentId| #[trigger] v.archetypes[a as int].columns.contains_key(c) ==> v.archetypes[a as int].columns[c].contains_key(e as usize)
                            } by {
                                let a = (v.entities.locations[e]->0).0;
                                assert(v.archetypes[a as int] == v0.archetypes[a as int]);
                            }
                            assert forall|a: int, c: ComponentId| 0 <= a < v.archetypes.len() && #[trigger] v.archetypes[a].edges.contains_key(c) implies {
                                let edge = v.archetypes[a].edges[c];
                                &&& (edge.add matches Some(b) ==> b < v.archetypes.len() && v.archetypes[b as int].components == v.archetypes[a].components.push(c))
                                &&& (edge.remove matches Some(b) ==> b < v.archetypes.len() && v.archetypes[b as int].components == without(v.archetypes[a].components, c))
                            } by {
                                assert(a != k);
                                let edge = v0.archetypes[a].edges[c];
                                if let Some(b) = edge.add {
                                    assert(v.archetypes[b as int] == v0.archetypes[b as int]);
                                }
                                if let Some(b) = edge.remove {
                                    assert(v.archetypes[b as int] == v0.archetypes[b as int]);
                                }
                            }
                            assert forall|a: int| 0 <= a < v.archetypes.len() implies distinct(#[trigger] v.archetypes[a].components) by {}
                        }
                        k
                    },
                };
                let ghost v1 = self.view();
                let new_edge = if adding {
                    ArchetypeRelationEdge { add: Some(b), remove: edge.remove }
                } else {
                    ArchetypeRelationEdge { add: edge.add, remove: Some(b) }
                };
                self.archetype_registry.set_edge(src, component, new_edge);
                proof {
                    self.archetype_registry.lemma_columns_match_components();
                    let v = self.view();
                    assert forall|a: int| 0 <= a < v.archetypes.len() && a != src implies #[trigger] v.archetypes[a] == v1.archetypes[a] by {}
                    assert forall|a: int, c: ComponentId| 0 <= a < v.archetypes.len() && #[trigger] v.archetypes[a].edges.contains_key(c) implies {
                        let edge = v.archetypes[a].edges[c];
                        &&& (edge.add matches Some(b) ==> b < v.archetypes.len() && v.archetypes[b as int].components == v.archetypes[a].components.push(c))
                        &&& (edge.remove matches Some(b) ==> b < v.archetypes.len() && v.archetypes[b as int].components == without(v.archetypes[a].components, c))
                    } by {
                        if a == src && c == component {
                        } else {
                            assert(v1.archetypes[a].edges.contains_key(c));
                        }
                    }
                    assert forall|a: int, c: ComponentId| 0 <= a < v.archetypes.len() && #[trigger] v.archetypes[a].columns.contains_key(c) implies {
                        &&& v.components.contains_key(c)
                        &&& c < usize::MAX
                        &&& v.archetypes[a].column_types[c] == v.components[c].type_info
                    } by {
                        assert(v1.archetypes[a].columns.contains_key(c));
                    }
                    assert forall|a: int| 0 <= a < v.archetypes.len() implies distinct(#[trigger] v.archetypes[a].components) by {
                        assert(distinct(v1.archetypes[a].components));
                    }
                    assert forall|e: int| 0 <= e < v.entities.locations.len() && #[trigger] v.entities.locations[e] is Some implies {
                        let a = (v.entities.locations[e]->0).0;
                        &&& a < v.archetypes.len()
                        &&& forall|c: ComponentId| #[trigger] v.archetypes[a as int].columns.contains_key(c) ==> v.archetypes[a as int].columns[c].contains_key(e as usize)
                    } by {
                        let a = (v.entities.locations[e]->0).0;
                        assert(v1.entities.locations[e] is Some);
                        assert forall|c: ComponentId| #[trigger] v.archetypes[a as int].columns.contains_key(c) implies v.archetypes[a as int].columns[c].contains_key(e as usize) by {
                            assert(v1.archetypes[a as int].columns.contains_key(c));
                        }
                    }
                    assert forall|a: int, c: ComponentId, e: usize| 0 <= a < v.archetypes.len() && v.archetypes[a].columns.contains_key(c)
                        && #[trigger] v.archetypes[a].columns[c].contains_key(e) implies {
                        &&& e < v.entities.locations.len()
                        &&& v.entities.locations[e as int] is Some
                        &&& (v.entities.locations[e as int]->0).0 == a
                    } by {
                        assert(v1.archetypes[a].columns.contains_key(c));
                        assert(v1.archetypes[a].columns[c].contains_key(e));
                    }
                }
                b
            },
        }
    }

    /// Add `component`, with value `value`, to `entity`; the entity moves to the archetype
    /// with one component more.
    pub fn add_component(&mut self, entity: Entity, component: ComponentId, value: Vec<u8>)
        requires
            old(self).wf(),
            entity.id < old(self).view().entities.next_id(),
            old(self).view().entities.locations[entity.id as int] is Some,
            old(self).view().row_in_bounds(entity.id),
            old(self).view().components.contains_key(component),
            component < usize::MAX,
            !old(self).view().components_of(entity.id).contains(component),
            value@.len() == old(self).view().components[component].type_info.size,
            old(self).can_add(entity.id, component),
        ensures
            old(self).view().keeps_archetypes(final(self).view()),
            final(self).wf(),
            final(self).view().components == old(self).view().components,
            final(self).view().entities.generations == old(self).view().entities.generations,
            final(self).view().entities.available == old(self).view().entities.available,
            final(self).view().entities.count == old(self).view().entities.count,
            final(self).view().components_of(entity.id) == old(self).view().components_of(entity.id).push(component),
            final(self).view().value_of(entity.id, component) == Some(value@),
            forall|c: ComponentId| c != component ==> #[trigger] final(self).view().value_of(entity.id, c) == old(self).view().value_of(entity.id, c),
            old(self).view().others_unchanged(final(self).view(), entity.id),
    {
        let ghost v0 = self.view();
        let ghost id = entity.id;
        proof {
            self.entity_registry.lemma_view_wf();
            self.archetype_registry.lemma_columns_match_components();
            assert(v0.entities.locations[id as int] is Some);
        }
        let (src, _) = self.entity_registry.archetype_id(entity);
        let ghost ss = v0.archetypes[src as int].components;
        let mut target = copy_components(self.archetype_registry.get(src).components());
        target.push(component);
        proof {
            assert forall|i: int, j: int| 0 <= i < j < target@.len() implies target@[i] != target@[j] by {
                if j == target@.len() - 1 {
                    assert(ss.contains(target@[i])) by { assert(ss[i] == target@[i]); }
                }
            }
            assert forall|i: int| 0 <= i < target@.len() implies #[trigger] target@[i] < usize::MAX
                && v0.components.contains_key(target@[i]) by {
                if i < ss.len() {
                    assert(ss.contains(ss[i]));
                    assert(v0.archetypes[src as int].columns.contains_key(ss[i]));
                }
            }
        }
        let dst = self.target_archetype(src, component, target, true);
        let ghost v1 = self.view();
        proof {
            assert(v1.entities.locations[id as int] is Some);
            assert(v1.archetypes[src as int].components == ss);
        }
        self.move_entity_to_archetype(entity, src, dst, None, Some((component, value)));
        proof {
            let v = self.view();
            assert forall|c: ComponentId| c != component implies #[trigger] v.value_of(id, c) == v0.value_of(id, c) by {
                assert(v1.value_of(id, c) == v0.value_of(id, c));
                if !v1.archetypes[dst as int].components.contains(c) {
                    assert(!ss.contains(c)) by {
                        if ss.contains(c) {
                            let k = choose|k: int| 0 <= k < ss.len() && ss[k] == c;
                            assert(v1.archetypes[dst as int].components[k] == c);
                        }
                    }
                    assert(!v0.archetypes[src as int].columns.contains_key(c));
                }
            }
            assert forall|e: u32| e != id implies #[trigger] v.components_of(e) == v0.components_of(e) by {
                assert(v1.components_of(e) == v0.components_of(e));
            }
            assert forall|e: u32, c: ComponentId| e != id implies #[trigger] v.value_of(e, c) == v0.value_of(e, c) by {
                assert(v1.value_of(e, c) == v0.value_of(e, c));
            }
        }
    }

    /// Remove `component` from `entity`; the entity moves to the archetype with one
    /// component less, and the removed value is handed back, for the caller to drop once.
    pub fn remove_component(&mut self, entity: Entity, component: ComponentId) -> (removed: Vec<u8>)
        requires
            old(self).wf(),
            entity.id < old(self).view().entities.next_id(),
            old(self).view().entities.locations[entity.id as int] is Some,
            old(self).view().row_in_bounds(entity.id),
            old(self).view().components.contains_key(component),
            old(self).view().components_of(entity.id).contains(component),
            old(self).can_remove(entity.id, component),
        ensures
            old(self).view().keeps_archetypes(final(self).view()),
            final(self).wf(),
            final(self).view().components == old(self).view().components,
            final(self).view().entities.generations == old(self).view().entities.generations,
            final(self).view().entities.available == old(self).view().entities.available,
            final(self).view().entities.count == old(self).view().entities.count,
            final(self).view().components_of(entity.id) == without(old(self).view().components_of(entity.id), component),
            final(self).view().value_of(entity.id, component) is None,
            forall|c: ComponentId| c != component ==> #[trigger] final(self).view().value_of(entity.id, c) == old(self).view().value_of(entity.id, c),
            old(self).view().others_unchanged(final(self).view(), entity.id),
            old(self).view().value_of(entity.id, component) == Some(removed@),
    {
        let ghost v0 = self.view();
        let ghost id = entity.id;
        proof {
            self.entity_registry.lemma_view_wf();
            self.archetype_registry.lemma_columns_match_components();
            assert(v0.entities.locations[id as int] is Some);
        }
        let (src, _) = self.entity_registry.archetype_id(entity);
        let ghost ss = v0.archetypes[src as int].components;
        let target = components_without(self.archetype_registry.get(src).components(), component);
        proof {
            lemma_position_of(ss, component);
            let p = position_of(ss, component)->0;
            assert forall|i: int| 0 <= i < target@.len() implies #[trigger] target@[i] == (if i < p { ss[i] } else { ss[i + 1] }) by {}
            assert forall|i: int, j: int| 0 <= i < j < target@.len() implies target@[i] != target@[j] by {
                assert(target@[i] == (if i < p { ss[i] } else { ss[i + 1] }));
                assert(target@[j] == (if j < p { ss[j] } else { ss[j + 1] }));
            }
            assert forall|i: int| 0 <= i < target@.len() implies #[trigger] target@[i] < usize::MAX
                && v0.components.contains_key(target@[i]) by {
                let k = if i < p { i } else { i + 1 };
                assert(target@[i] == ss[k]);
                assert(ss.contains(ss[k]));
                assert(v0.archetypes[src as int].columns.contains_key(ss[k]));
            }
        }
        let dst = self.target_archetype(src, component, target, false);
        let ghost v1 = self.view();
        proof {
            assert(v1.entities.locations[id as int] is Some);
            assert(v1.archetypes[src as int].components == ss);
        }
        let mut row = self.move_entity_to_archetype(entity, src, dst, Some(component), None);
        let mut k: usize = 0;
        while k < row.len()
            invariant
                k <= row@.len(),
                row@.len() == ss.len(),
                ss.contains(component),
                forall|j: int| 0 <= j < row@.len() ==> (#[trigger] row@[j]).0 == ss[j]
                    && v0.value_of(id, row@[j].0) == Some(row@[j].1@),
                forall|j: int| 0 <= j < k ==> (#[trigger] row@[j]).0 != component,
            ensures
                k <= row@.len(),
                k < row@.len() ==> row@[k as int].0 == component,
                forall|j: int| 0 <= j < row@.len() ==> (#[trigger] row@[j]).0 == ss[j]
                    && v0.value_of(id, row@[j].0) == Some(row@[j].1@),
                forall|j: int| 0 <= j < k ==> (#[trigger] row@[j]).0 != component,
            decreases row@.len() - k,
        {
            if row[k].0 == component {
                break;
            }
            k = k + 1;
        }
        proof {
            if k == row@.len() {
                let j = choose|j: int| 0 <= j < ss.len() && ss[j] == component;
                assert(row@[j].0 == component);
            }
        }
        let ghost entry = row@[k as int];
        let (_, removed) = row.swap_remove(k);
        assert(removed@ == entry.1@ && entry.0 == component);
        proof {
            let v = self.view();
            let ds = v1.archetypes[dst as int].components;
            let p = position_of(ss, component)->0;
            assert(!ds.contains(component)) by {
                if ds.contains(component) {
                    let k = choose|k: int| 0 <= k < ds.len() && ds[k] == component;
                    if k < p { assert(ds[k] == ss[k]); } else { assert(ds[k] == ss[k + 1]); }
                }
            }
            assert forall|c: ComponentId| c != component implies #[trigger] v.value_of(id, c) == v0.value_of(id, c) by {
                assert(v1.value_of(id, c) == v0.value_of(id, c));
                if !ds.contains(c) {
                    assert(!ss.contains(c)) by {
                        if ss.contains(c) {
                            let k = choose|k: int| 0 <= k < ss.len() && ss[k] == c;
                            if k < p { assert(ds[k] == c); } else { assert(k != p); assert(ds[k - 1] == c); }
                        }
                    }
                    assert(!v0.archetypes[src as int].columns.contains_key(c));
                }
            }
            assert forall|e: u32| e != id implies #[trigger] v.components_of(e) == v0.components_of(e) by {
                assert(v1.components_of(e) == v0.components_of(e));
            }
            assert forall|e: u32, c: ComponentId| e != id implies #[trigger] v.value_of(e, c) == v0.value_of(e, c) by {
                assert(v1.value_of(e, c) == v0.value_of(e, c));
            }
        }
        removed
    }

    /// Whether the archetype for `target` (reached through the cached `edge`, else found or
    /// registered) can take one more entity.
    fn can_move_to_exec(&self, target: &Vec<ComponentId>, edge: Option<ArchetypeId>) -> (res: bool)
        requires
            self.wf(),
            edge matches Some(b) ==> b < self.view().archetypes.len(),
            forall|i: int| 0 <= i < target@.len() ==> self.view().components.contains_key(#[trigger] target@[i]),
        ensures
            res == self.can_move_to(target@, edge),
    {
        match edge {
            Some(b) => self.archetype_registry.can_insert_row(b),
            None => match self.archetype_registry.find(target) {
                Some(k) => {
                    proof { lemma_first_archetype_with(self.view().archetypes, target@, 0); }
                    self.archetype_registry.can_insert_row(k)
                },
                None => {
                    if !self.archetype_registry.can_register_archetype(target.len()) {
                        return false;
                    }
                    let mut i: usize = 0;
                    while i < target.len()
                        invariant
                            i <= target@.len(),
                            self.wf(),
                            edge is None,
                            first_archetype_with(self.view().archetypes, target@, 0) is None,
                            self.archetype_registry.can_register(target@.len()),
                            forall|k: int| 0 <= k < target@.len() ==> self.view().components.contains_key(#[trigger] target@[k]),
                            forall|k: int| 0 <= k < i ==> #[trigger] fresh_column_can_insert(self.view().components[target@[k]].type_info),
                        decreases target@.len() - i,
                    {
                        let ok = match self.component_registry.get(&target[i]) {
                            Some(info) => info.type_info.first_element_fits(),
                            None => false,
                        };
                        if !ok {
                            assert(self.view().components.contains_key(target@[i as int]));
                            assert(!fresh_column_can_insert(self.view().components[target@[i as int]].type_info));
                            return false;
                        }
                        i = i + 1;
                    }
                    true
                },
            },
        }
    }

    /// Whether adding `component` to `entity` stays within the counters and makes valid
    /// memory layouts (the condition that `add_component` requires besides the component
    /// being new to the entity).
    pub fn can_add_component(&self, entity: Entity, component: ComponentId) -> (res: bool)
        requires
            self.wf(),
            entity.id < self.view().entities.next_id(),
            self.view().entities.locations[entity.id as int] is Some,
            self.view().components.contains_key(component),
        ensures
            res == self.can_add(entity.id, component),
    {
        let ghost v = self.view();
        proof {
            self.entity_registry.lemma_view_wf();
            self.archetype_registry.lemma_columns_match_components();
            assert(v.entities.locations[entity.id as int] is Some);
        }
        let (src, _) = self.entity_registry.archetype_id(entity);
        let archetype = self.archetype_registry.get(src);
        let mut target = copy_components(archetype.components());
        target.push(component);
        let edge = archetype.edge(&component);
        proof {
            if v.archetypes[src as int].edges.contains_key(component) {}
            assert forall|i: int| 0 <= i < target@.len() implies v.components.contains_key(#[trigger] target@[i]) by {
                if i < target@.len() - 1 {
                    assert(v.archetypes[src as int].components.contains(target@[i]));
                    assert(v.archetypes[src as int].columns.contains_key(target@[i]));
                }
            }
        }
        self.can_move_to_exec(&target, edge.add)
    }

    /// Whether removing `component` from `entity` stays within the counters and makes valid
    /// memory layouts (the condition that `remove_component` requires besides the entity
    /// having the component).
    pub fn can_remove_component(&self, entity: Entity, component: ComponentId) -> (res: bool)
        requires
            self.wf(),
            entity.id < self.view().entities.next_id(),
            self.view().entities.locations[entity.id as int] is Some,
        ensures
            res == self.can_remove(entity.id, component),
    {
        let ghost v = self.view();
        proof {
            self.entity_registry.lemma_view_wf();
            self.archetype_registry.lemma_columns_match_components();
            assert(v.entities.locations[entity.id as int] is Some);
        }
        let (src, _) = self.entity_registry.archetype_id(entity);
        let archetype = self.archetype_registry.get(src);
        let target = components_without(archetype.components(), component);
        let edge = archetype.edge(&component);
        proof {
            let ss = v.archetypes[src as int].components;
            if v.archetypes[src as int].edges.contains_key(component) {}
            lemma_position_of(ss, component);
            assert forall|i: int| 0 <= i < target@.len() implies v.components.contains_key(#[trigger] target@[i]) by {
                let k = match position_of(ss, component) { Some(p) => if i < p { i } else { i + 1 }, None => i };
                assert(target@[i] == ss[k]);
                assert(ss.contains(ss[k]));
                assert(v.archetypes[src as int].columns.contains_key(ss[k]));
            }
        }
        self.can_move_to_exec(&target, edge.remove)
    }

    /// Whether the recorded row of `entity` lies inside its archetype's entity list
    /// (moving or destroying the entity needs it).
    pub fn row_in_bounds(&self, entity: Entity) -> (res: bool)
        requires
            self.wf(),
            entity.id < self.view().entities.next_id(),
        ensures
            res == self.view().row_in_bounds(entity.id),
    {
        proof { self.entity_registry.lemma_view_wf(); }
        match self.entity_registry.location(entity) {
            Some((a, row)) => {
                proof { assert(self.view().entities.locations[entity.id as int] is Some); }
                row < self.archetype_registry.get(a).entities().len()
            },
            None => false,
        }
    }

    /// Register component `id` with its layout information.
    pub fn register_component(&mut self, id: ComponentId, info: ComponentInfo)
        requires
            old(self).wf(),
            !old(self).view().components.contains_key(id),
        ensures
            old(self).view().keeps_archetypes(final(self).view()),
            final(self).wf(),
            final(self).view() == (WorldView { components: old(self).view().components.insert(id, info), ..old(self).view() }),
    {
        let ghost v0 = self.view();
        self.component_registry.register(id, info);
        proof {
            let v = self.view();
            assert forall|a: int, c: ComponentId| 0 <= a < v.archetypes.len() && #[trigger] v.archetypes[a].columns.contains_key(c) implies {
                &&& v.components.contains_key(c)
                &&& c < usize::MAX
                &&& v.archetypes[a].column_types[c] == v.components[c].type_info
            } by {
                assert(v0.components.contains_key(c));
            }
        }
    }

    /// Whether another entity can be spawned without overflowing the id counter.
    pub fn can_spawn(&self) -> (res: bool)
        requires
            self.wf(),
        ensures
            res == self.view().entities.can_alloc(),
    {
        self.entity_registry.can_alloc()
    }

    /// Whether `entity` can be destroyed: it has a recorded location inside its
    /// archetype, and freeing it overflows no counter.
    pub fn can_destroy(&self, entity: Entity) -> (res: bool)
        requires
            self.wf(),
        ensures
            res == (entity.id < self.view().entities.next_id()
                && self.view().entities.locations[entity.id as int] is Some
                && self.view().row_in_bounds(entity.id)
                && self.view().entities.can_free(entity)),
    {
        proof { self.entity_registry.lemma_view_wf(); }
        if entity.id >= self.entity_registry.next_id() {
            return false;
        }
        if !self.row_in_bounds(entity) {
            return false;
        }
        let located = self.entity_registry.location(entity).is_some();
        proof {
            let v = self.view();
            if located {
                assert(!v.entities.available.contains(entity.id)) by {
                    if v.entities.available.contains(entity.id) {
                        let i = choose|i: int| 0 <= i < v.entities.available.len() && v.entities.available[i] == entity.id;
                        assert(v.entities.locations[v.entities.available[i] as int] is None);
                    }
                }
            }
        }
        located && self.entity_registry.entity(entity.id).generation < u32::MAX
    }

    /// The archetypes of the world.
    pub fn archetype_registry(&self) -> (res: &ArchetypeRegistry)
        requires
            self.wf(),
        ensures
            res.wf(),
            res.view() == self.view().archetypes,
    {
        &self.archetype_registry
    }

    /// The archetype that stores the components of `entity`'s id, if any.
    pub fn archetype_of(&self, entity: Entity) -> (res: Option<ArchetypeId>)
        requires
            self.wf(),
        ensures
            res == self.view().archetype_of(entity.id),
            res matches Some(a) ==> a < self.view().archetypes.len(),
    {
        proof { self.entity_registry.lemma_view_wf(); }
        if entity.id >= self.entity_registry.next_id() {
            return None;
        }
        match self.entity_registry.location(entity) {
            Some((a, _)) => Some(a),
            None => None,
        }
    }

    /// An entity stored in an archetype has a value for each of the archetype's
    /// components.
    pub proof fn lemma_located_values(&self, id: u32, c: ComponentId)
        requires
            self.wf(),
            self.view().archetype_of(id) is Some,
            self.view().archetypes[self.view().archetype_of(id)->0 as int].components.contains(c),
        ensures
            self.view().value_of(id, c) is Some,
    {
        self.archetype_registry.lemma_columns_match_components();
        self.entity_registry.lemma_view_wf();
        let a = self.view().archetype_of(id)->0;
        assert(self.view().entities.locations[id as int] is Some);
        assert(self.view().archetypes[a as int].columns.contains_key(c));
    }

    /// The layout information registered for component `id`.
    pub fn component_info(&self, id: ComponentId) -> (res: Option<ComponentInfo>)
        ensures
            match res {
                Some(info) => self.view().components.contains_key(id) && self.view().components[id] == info,
                None => !self.view().components.contains_key(id),
            },
    {
        match self.component_registry.get(&id) {
            Some(info) => Some(*info),
            None => None,
        }
    }

    /// Whether component `id` is registered.
    pub fn is_registered(&self, id: ComponentId) -> (res: bool)
        ensures
            res == self.view().components.contains_key(id),
    {
        self.component_registry.contains(&id)
    }

    /// Whether `entity` still refers to a live entity of this world.
    pub fn is_valid(&self, entity: Entity) -> (res: bool)
        requires
            self.wf(),
            entity.id < self.view().entities.next_id(),
        ensures
            res == self.view().entities.is_valid(entity),
    {
        self.entity_registry.is_valid(entity)
    }

    /// Number of ids handed out so far.
    pub fn next_entity_id(&self) -> (res: u32)
        requires
            self.wf(),
        ensures
            res == self.view().entities.next_id(),
    {
        self.entity_registry.next_id()
    }

    /// The value of component `component` of `entity`.
    pub fn get_component(&self, entity: Entity, component: ComponentId) -> (res: Option<&Vec<u8>>)
        requires
            self.wf(),
        ensures
            match res {
                Some(v) => self.view().value_of(entity.id, component) == Some(v@),
                None => self.view().value_of(entity.id, component) is None,
            },
    {
        proof { self.entity_registry.lemma_view_wf(); }
        if entity.id >= self.entity_registry.next_id() {
            return None;
        }
        let loc = self.entity_registry.location(entity);
        proof {
            if loc is Some {
                assert(self.view().entities.locations[entity.id as int] is Some);
            }
        }
        match loc {
            Some((a, _)) => {
                let archetype = self.archetype_registry.get(a);
                archetype.component_value(component, entity.id as usize)
            },
            None => None,
        }
    }

    /// Overwrites the value of component `component` of `entity` with `value`, when the
    /// entity has that component and `value` has the component's size; whether it did.
    /// Nothing else changes.
    pub fn set_component(&mut self, entity: Entity, component: ComponentId, value: &[u8]) -> (res: bool)
        requires
            old(self).wf(),
        ensures
            final(self).wf(),
            res == (old(self).view().value_of(entity.id, component) is Some
                && value@.len() == old(self).view().components[component].type_info.size),
            !res ==> final(self).view() == old(self).view(),
            res ==> final(self).view().value_of(entity.id, component) == Some(value@),
            res ==> forall|e: u32, c: ComponentId| !(e == entity.id && c == component)
                ==> #[trigger] final(self).view().value_of(e, c) == old(self).view().value_of(e, c),
            final(self).view().entities == old(self).view().entities,
            final(self).view().components == old(self).view().components,
            forall|e: u32| #[trigger] final(self).view().components_of(e) == old(self).view().components_of(e),
            old(self).view().keeps_archetypes(final(self).view()),
            final(self).view().archetypes.len() == old(self).view().archetypes.len(),
    {
        proof { self.entity_registry.lemma_view_wf(); }
        if entity.id >= self.entity_registry.next_id() {
            return false;
        }
        let loc = self.entity_registry.location(entity);
        proof {
            if loc is Some {
                assert(self.view().entities.locations[entity.id as int] is Some);
            }
        }
        let a = match loc {
            Some((a, _)) => a,
            None => { return false; },
        };
        let size = match self.component_registry.get(&component) {
            Some(info) => info.type_info.size,
            None => 0,
        };
        if self.archetype_registry.get(a).component_value(component, entity.id as usize).is_none() {
            return false;
        }
        if value.len() != size {
            return false;
        }
        let ghost old_view = self.view();
        proof {
            assert(old_view.archetypes[a as int].columns.contains_key(component));
        }
        self.archetype_registry.write_component_value(a, component, entity.id as usize, value);
        proof {
            let v = self.view();
            assert(v.entities == old_view.entities);
            assert(v.components == old_view.components);
            assert(v.archetypes.len() == old_view.archetypes.len());
            assert forall|b: int| 0 <= b < v.archetypes.len() implies {
                &&& #[trigger] v.archetypes[b].components == old_view.archetypes[b].components
                &&& v.archetypes[b].column_types == old_view.archetypes[b].column_types
                &&& v.archetypes[b].edges == old_view.archetypes[b].edges
                &&& v.archetypes[b].component_archetype_ids == old_view.archetypes[b].component_archetype_ids
                &&& v.archetypes[b].columns.dom() == old_view.archetypes[b].columns.dom()
                &&& forall|c: ComponentId| #[trigger] v.archetypes[b].columns.contains_key(c) ==> v.archetypes[b].columns[c].dom() == old_view.archetypes[b].columns[c].dom()
            } by {
                if b == a {
                    assert(v.archetypes[b].columns.dom() =~= old_view.archetypes[b].columns.dom());
                    assert forall|c: ComponentId| #[trigger] v.archetypes[b].columns.contains_key(c) implies v.archetypes[b].columns[c].dom() == old_view.archetypes[b].columns[c].dom() by {
                        if c == component {
                            assert(v.archetypes[b].columns[c].dom() =~= old_view.archetypes[b].columns[c].dom());
                        }
                    }
                }
            }
            assert forall|e: u32, c: ComponentId| !(e == entity.id && c == component)
                implies #[trigger] v.value_of(e, c) == old_view.value_of(e, c) by {
            }
            assert forall|e: u32| #[trigger] v.components_of(e) == old_view.components_of(e) by {
            }
            assert forall|b: int, c: ComponentId, e: usize| 0 <= b < v.archetypes.len() && v.archetypes[b].columns.contains_key(c)
                && #[trigger] v.archetypes[b].columns[c].contains_key(e) implies {
                &&& e < v.entities.locations.len()
                &&& v.entities.locations[e as int] is Some
                &&& (v.entities.locations[e as int]->0).0 == b
            } by {
                assert(old_view.archetypes[b].columns[c].contains_key(e));
            }
            assert forall|e: int| 0 <= e < v.entities.locations.len() && #[trigger] v.entities.locations[e] is Some implies {
                let b = (v.entities.locations[e]->0).0;
                &&& b < v.archetypes.len()
                &&& forall|c: ComponentId| #[trigger] v.archetypes[b as int].columns.contains_key(c) ==> v.archetypes[b as int].columns[c].contains_key(e as usize)
            } by {
                let b = (v.entities.locations[e]->0).0;
                assert forall|c: ComponentId| #[trigger] v.archetypes[b as int].columns.contains_key(c) implies v.archetypes[b as int].columns[c].contains_key(e as usize) by {
                    assert(old_view.archetypes[b as int].columns.contains_key(c));
                }
            }
        }
        true
    }

    /// The components of `entity`, in its archetype's order.
    pub fn components_of(&self, entity: Entity) -> (res: Vec<ComponentId>)
        requires
            self.wf(),
        ensures
            res@ == self.view().components_of(entity.id),
    {
        proof { self.entity_registry.lemma_view_wf(); }
        if entity.id >= self.entity_registry.next_id() {
            return Vec::new();
        }
        let loc = self.entity_registry.location(entity);
        proof {
            if loc is Some {
                assert(self.view().entities.locations[entity.id as int] is Some);
            }
        }
        match loc {
            Some((a, _)) => {
                let list = self.archetype_registry.get(a).components();
                let mut res: Vec<ComponentId> = Vec::new();
                let mut i: usize = 0;
                while i < list.len()
                    invariant
                        i <= list@.len(),
                        res@ == list@.subrange(0, i as int),
                    decreases list@.len() - i,
                {
                    res.push(list[i]);
                    i = i + 1;
                }
                assert(res@ =~= list@);
                res
            },
            None => Vec::new(),
        }
    }
}

impl Default for World {
    fn default() -> (res: Self)
        ensures
            res.wf(),
            res.view().entities.generations.len() == 0,
            res.view().entities.count == 0,
            res.view().archetypes.len() == 1,
            res.view().components == Map::<ComponentId, ComponentInfo>::empty(),
    {
        World::new()
    }
}

} // verus!
