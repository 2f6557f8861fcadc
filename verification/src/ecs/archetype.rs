//! Archetypes: the storage of every entity that has exactly one set of components.
use vstd::prelude::*;
use std::collections::HashMap;
use crate::ecs::component::{ComponentId, ComponentInfo, ComponentRegistry};
use crate::ecs::entity::{ArchetypeId, Entity};
use crate::ecs::erased_vec::TypeInfo;
use crate::ecs::sparse_set::{SparseSet, TypeErasedSparseSet};

verus! {

broadcast use vstd::std_specs::hash::group_hash_axioms;

/// Index of the first `c` in `s` at or after `from`.
pub open spec fn position_from(s: Seq<ComponentId>, c: ComponentId, from: int) -> Option<int>
    decreases s.len() - from,
{
    if from < 0 || from >= s.len() {
        None
    } else if s[from] == c {
        Some(from)
    } else {
        position_from(s, c, from + 1)
    }
}

/// Index of the first `c` in `s`.
pub open spec fn position_of(s: Seq<ComponentId>, c: ComponentId) -> Option<int> {
    position_from(s, c, 0)
}

/// No component occurs twice.
pub open spec fn distinct(s: Seq<ComponentId>) -> bool {
    forall|i: int, j: int| 0 <= i < j < s.len() ==> s[i] != s[j]
}

/// `s` without its component `c`.
pub open spec fn without(s: Seq<ComponentId>, c: ComponentId) -> Seq<ComponentId> {
    match position_of(s, c) {
        Some(i) => s.remove(i),
        None => s,
    }
}

pub proof fn lemma_position_from(s: Seq<ComponentId>, c: ComponentId, from: int)
    requires
        from >= 0,
    ensures
        position_from(s, c, from) matches Some(i) ==> from <= i < s.len() && s[i] == c && forall|j: int| from <= j < i ==> s[j] != c,
        position_from(s, c, from) is None ==> forall|j: int| from <= j < s.len() ==> s[j] != c,
    decreases s.len() - from,
{
    if from < s.len() && s[from] != c {
        lemma_position_from(s, c, from + 1);
    }
}

/// `position_of` gives the first index holding `c`, and `None` exactly when `c` is absent.
pub proof fn lemma_position_of(s: Seq<ComponentId>, c: ComponentId)
    ensures
        position_of(s, c) matches Some(i) ==> 0 <= i < s.len() && s[i] == c && forall|j: int| 0 <= j < i ==> s[j] != c,
        position_of(s, c) is None <==> !s.contains(c),
{
    lemma_position_from(s, c, 0);
}

/// A new, empty column of this type can store its first value.
pub open spec fn fresh_column_can_insert(t: TypeInfo) -> bool {
    t.size == 0 || t.fits(1)
}

/// Store a specific type of component inside an archetype, by entity id.
pub struct Column {
    components: TypeErasedSparseSet,
}

impl Column {
    pub closed spec fn view(&self) -> Map<usize, Seq<u8>> {
        self.components.view()
    }

    pub closed spec fn wf(&self) -> bool {
        self.components.wf()
    }

    pub closed spec fn spec_type_info(&self) -> TypeInfo {
        self.components.spec_type_info()
    }

    /// One more value can be stored without an invalid layout.
    pub closed spec fn can_insert(&self) -> bool {
        self.components.can_insert()
    }

    pub fn new(component_info: &ComponentInfo) -> (res: Self)
        ensures
            res.wf(),
            res.view() == Map::<usize, Seq<u8>>::empty(),
            res.spec_type_info() == component_info.type_info,
            res.can_insert() == (component_info.type_info.size == 0 || component_info.type_info.fits(1)),
    {
        Column { components: TypeErasedSparseSet::new(component_info.type_info) }
    }

    pub fn components(&self) -> (res: &TypeErasedSparseSet)
        ensures
            res.view() == self.view(),
    {
        &self.components
    }

    pub fn can_insert_value(&self) -> (res: bool)
        requires
            self.wf(),
        ensures
            res == self.can_insert(),
    {
        self.components.can_insert_value()
    }
}

/// Store what archetype to use when a component is added/removed.
#[derive(Copy, Clone, PartialEq, Eq, Structural, Debug)]
pub struct ArchetypeRelationEdge {
    /// Id of the archetype to use when the component is added.
    pub add: Option<ArchetypeId>,
    /// Id of the archetype to use when the component is removed.
    pub remove: Option<ArchetypeId>,
}

impl Default for ArchetypeRelationEdge {
    fn default() -> (res: Self)
        ensures
            res.add is None,
            res.remove is None,
    {
        ArchetypeRelationEdge { add: None, remove: None }
    }
}

/// Identifies a component type inside one archetype, across all archetypes.
pub type ComponentArchetypeId = usize;

/// Abstract state of an [`Archetype`].
pub struct ArchetypeView {
    pub id: ArchetypeId,
    pub components: Seq<ComponentId>,
    pub component_archetype_ids: Seq<ComponentArchetypeId>,
    /// Stored values: component -> entity id -> bytes.
    pub columns: Map<ComponentId, Map<usize, Seq<u8>>>,
    pub column_types: Map<ComponentId, TypeInfo>,
    pub edges: Map<ComponentId, ArchetypeRelationEdge>,
    pub entities: Seq<Entity>,
}

impl ArchetypeView {
    /// The edge recorded for `c` (empty if none).
    pub open spec fn edge(self, c: ComponentId) -> ArchetypeRelationEdge {
        if self.edges.contains_key(c) {
            self.edges[c]
        } else {
            ArchetypeRelationEdge { add: None, remove: None }
        }
    }
}

/// Every entity that has exactly the components of `components`, with their values.
pub struct Archetype {
    id: ArchetypeId,
    components: Vec<ComponentId>,
    component_archetype_ids: Vec<ComponentArchetypeId>,
    columns: SparseSet<Column>,
    archetype_component_edges: HashMap<ComponentId, ArchetypeRelationEdge>,
    entities: Vec<Entity>,
}

impl Archetype {
    pub closed spec fn view(&self) -> ArchetypeView {
        ArchetypeView {
            id: self.id,
            components: self.components@,
            component_archetype_ids: self.component_archetype_ids@,
            columns: Map::new(|c: ComponentId| self.columns.view().contains_key(c), |c: ComponentId| self.columns.view()[c].view()),
            column_types: Map::new(|c: ComponentId| self.columns.view().contains_key(c), |c: ComponentId| self.columns.view()[c].spec_type_info()),
            edges: self.archetype_component_edges@,
            entities: self.entities@,
        }
    }

    pub closed spec fn wf(&self) -> bool {
        &&& self.columns.wf()
        &&& distinct(self.components@)
        &&& self.component_archetype_ids@.len() == self.components@.len()
        &&& forall|c: ComponentId| #[trigger] self.columns.view().contains_key(c) <==> self.components@.contains(c)
        &&& forall|c: ComponentId| #[trigger] self.columns.view().contains_key(c) ==> self.columns.view()[c].wf()
        &&& forall|c: ComponentId| #[trigger] self.columns.view().contains_key(c) ==> forall|e: usize|
            #[trigger] self.columns.view()[c].view().contains_key(e) ==> self.columns.view()[c].view()[e].len() == self.columns.view()[c].spec_type_info().size
    }

    /// Every column can store one more value.
    pub closed spec fn columns_can_insert(&self) -> bool {
        forall|c: ComponentId| #[trigger] self.columns.view().contains_key(c) ==> self.columns.view()[c].can_insert()
    }

    /// The columns are exactly the components, and stored values have the column's size.
    pub proof fn lemma_columns_match_components(&self)
        requires
            self.wf(),
        ensures
            forall|c: ComponentId| #[trigger] self.view().columns.contains_key(c) <==> self.view().components.contains(c),
            distinct(self.view().components),
            self.view().component_archetype_ids.len() == self.view().components.len(),
            forall|c: ComponentId, e: usize| #[trigger] self.view().columns.contains_key(c) && #[trigger] self.view().columns[c].contains_key(e)
                ==> self.view().columns[c][e].len() == self.view().column_types[c].size,
    {
        assert forall|c: ComponentId, e: usize| #[trigger] self.view().columns.contains_key(c) && #[trigger] self.view().columns[c].contains_key(e)
            implies self.view().columns[c][e].len() == self.view().column_types[c].size by {
            assert(self.columns.view().contains_key(c));
            assert(self.columns.view()[c].view().contains_key(e));
        }
    }

    /// An archetype without columns can always take one more row.
    pub proof fn lemma_no_columns_can_insert(&self)
        requires
            self.view().columns.dom() == Set::<ComponentId>::empty(),
        ensures
            self.columns_can_insert(),
    {
        assert forall|c: ComponentId| #[trigger] self.columns.view().contains_key(c) implies self.columns.view()[c].can_insert() by {
            assert(self.view().columns.dom().contains(c));
        }
    }

    /// A new archetype with one empty column per component.
    pub fn new_unchecked(
        id: ArchetypeId,
        component_db: &ComponentRegistry,
        components: Vec<ComponentId>,
        component_archetype_ids: Vec<ComponentArchetypeId>,
    ) -> (res: Self)
        requires
            distinct(components@),
            component_archetype_ids@.len() == components@.len(),
            forall|i: int| 0 <= i < components@.len() ==> #[trigger] components@[i] < usize::MAX,
            forall|i: int| 0 <= i < components@.len() ==> component_db.view().contains_key(#[trigger] components@[i]),
        ensures
            res.wf(),
            res.view().id == id,
            res.view().components == components@,
            res.view().component_archetype_ids == component_archetype_ids@,
            res.view().entities == Seq::<Entity>::empty(),
            res.view().edges == Map::<ComponentId, ArchetypeRelationEdge>::empty(),
            forall|c: ComponentId| #[trigger] res.view().columns.contains_key(c) <==> components@.contains(c),
            forall|c: ComponentId| #[trigger] res.view().columns.contains_key(c) ==> res.view().columns[c] == Map::<usize, Seq<u8>>::empty(),
            forall|c: ComponentId| #[trigger] res.view().columns.contains_key(c) ==> res.view().column_types[c] == component_db.view()[c].type_info,
            (forall|i: int| 0 <= i < components@.len() ==> #[trigger] fresh_column_can_insert(component_db.view()[components@[i]].type_info))
                ==> res.columns_can_insert(),
    {
        let mut columns: SparseSet<Column> = SparseSet::new();
        let mut i: usize = 0;
        while i < components.len()
            invariant
                i <= components@.len(),
                columns.wf(),
                distinct(components@),
                forall|k: int| 0 <= k < components@.len() ==> #[trigger] components@[k] < usize::MAX,
                forall|k: int| 0 <= k < components@.len() ==> component_db.view().contains_key(#[trigger] components@[k]),
                forall|c: ComponentId| #[trigger] columns.view().contains_key(c) <==> components@.subrange(0, i as int).contains(c),
                forall|c: ComponentId| #[trigger] columns.view().contains_key(c) ==> columns.view()[c].wf()
                    && columns.view()[c].view() == Map::<usize, Seq<u8>>::empty()
                    && columns.view()[c].spec_type_info() == component_db.view()[c].type_info
                    && columns.view()[c].can_insert() == fresh_column_can_insert(component_db.view()[c].type_info),
            decreases components@.len() - i,
        {
            let cid = components[i];
            let info = match component_db.get(&cid) {
                Some(info) => *info,
                None => ComponentInfo { type_info: TypeInfo { size: 0, align: 1 } },
            };
            columns.insert(cid, Column::new(&info));
            i = i + 1;
            assert forall|c: ComponentId| #[trigger] columns.view().contains_key(c) <==> components@.subrange(0, i as int).contains(c) by {
                if components@.subrange(0, i as int).contains(c) && c != cid {
                    let k = choose|k: int| 0 <= k < i && #[trigger] components@.subrange(0, i as int)[k] == c;
                    assert(components@.subrange(0, i - 1)[k] == c);
                }
                if components@.subrange(0, i - 1).contains(c) {
                    let k = choose|k: int| 0 <= k < i - 1 && #[trigger] components@.subrange(0, i - 1)[k] == c;
                    assert(components@.subrange(0, i as int)[k] == c);
                }
                assert(components@.subrange(0, i as int)[i - 1] == cid);
            }
        }
        assert(components@.subrange(0, components@.len() as int) =~= components@);
        proof {
            if forall|i: int| 0 <= i < components@.len() ==> #[trigger] fresh_column_can_insert(component_db.view()[components@[i]].type_info) {
                assert forall|c: ComponentId| #[trigger] columns.view().contains_key(c) implies columns.view()[c].can_insert() by {
                    let k = choose|k: int| 0 <= k < components@.len() && #[trigger] components@[k] == c;
                    assert(fresh_column_can_insert(component_db.view()[components@[k]].type_info));
                }
            }
        }
        let res = Archetype {
            id,
            components,
            component_archetype_ids,
            columns,
            archetype_component_edges: HashMap::new(),
            entities: Vec::new(),
        };
        res
    }

    pub fn id(&self) -> (res: ArchetypeId)
        ensures
            res == self.view().id,
    {
        self.id
    }

    pub fn components(&self) -> (res: &Vec<ComponentId>)
        ensures
            res@ == self.view().components,
    {
        &self.components
    }

    pub fn components_archetype_ids(&self) -> (res: &Vec<ComponentArchetypeId>)
        ensures
            res@ == self.view().component_archetype_ids,
    {
        &self.component_archetype_ids
    }

    pub fn entities(&self) -> (res: &Vec<Entity>)
        ensures
            res@ == self.view().entities,
    {
        &self.entities
    }

    /// The edge recorded for `component` (empty if none).
    pub fn edge(&self, component: &ComponentId) -> (res: ArchetypeRelationEdge)
        ensures
            res == self.view().edge(*component),
    {
        match self.archetype_component_edges.get(component) {
            Some(e) => *e,
            None => ArchetypeRelationEdge { add: None, remove: None },
        }
    }

    /// Record the edge of `component`.
    pub fn set_edge(&mut self, component: ComponentId, edge: ArchetypeRelationEdge)
        requires
            old(self).wf(),
        ensures
            final(self).wf(),
            final(self).view() == (ArchetypeView { edges: old(self).view().edges.insert(component, edge), ..old(self).view() }),
            final(self).columns_can_insert() == old(self).columns_can_insert(),
    {
        self.archetype_component_edges.insert(component, edge);
    }

    /// The stored value of `component` for entity id `entity_id`.
    pub fn component_value(&self, component: ComponentId, entity_id: usize) -> (res: Option<&Vec<u8>>)
        requires
            self.wf(),
        ensures
            match res {
                Some(v) => self.view().columns.contains_key(component)
                    && self.view().columns[component].contains_key(entity_id)
                    && self.view().columns[component][entity_id] == v@,
                None => !(self.view().columns.contains_key(component)
                    && self.view().columns[component].contains_key(entity_id)),
            },
    {
        match self.columns.get(component) {
            Some(column) => column.components.get(entity_id),
            None => None,
        }
    }

    /// Overwrites the stored value of `component` for entity id `entity_id`.
    pub fn write_component_value(&mut self, component: ComponentId, entity_id: usize, value: &[u8])
        requires
            old(self).wf(),
            old(self).view().columns.contains_key(component),
            old(self).view().columns[component].contains_key(entity_id),
            value@.len() == old(self).view().column_types[component].size,
        ensures
            final(self).wf(),
            final(self).view() == (ArchetypeView {
                columns: old(self).view().columns.insert(component, old(self).view().columns[component].insert(entity_id, value@)),
                ..old(self).view()
            }),
            final(self).columns_can_insert() == old(self).columns_can_insert(),
    {
        let ghost old_cols = self.columns.view();
        let dummy = Column::new(&ComponentInfo { type_info: TypeInfo { size: 0, align: 1 } });
        let mut column = self.columns.replace(component, dummy);
        assert(column == old_cols[component]);
        column.components.write(entity_id, value);
        let _ = self.columns.replace(component, column);
        proof {
            assert(self.columns.view() =~= old_cols.insert(component, column));
            assert(self.view().columns =~= old(self).view().columns.insert(component, old(self).view().columns[component].insert(entity_id, value@)));
            assert(self.view().column_types =~= old(self).view().column_types) by {
                assert forall|c: ComponentId| #[trigger] self.view().column_types.contains_key(c) implies self.view().column_types[c] == old(self).view().column_types[c] by {
                    if c == component {
                    }
                }
            }
            assert forall|c: ComponentId| #[trigger] self.columns.view().contains_key(c) implies self.columns.view()[c].wf() && (forall|e: usize|
                #[trigger] self.columns.view()[c].view().contains_key(e) ==> self.columns.view()[c].view()[e].len() == self.columns.view()[c].spec_type_info().size) by {
                if c == component {
                    assert forall|e: usize| #[trigger] self.columns.view()[c].view().contains_key(e) implies self.columns.view()[c].view()[e].len() == self.columns.view()[c].spec_type_info().size by {
                        if e != entity_id {
                            assert(old_cols[c].view().contains_key(e));
                        }
                    }
                }
            }
            assert(self.columns_can_insert() == old(self).columns_can_insert()) by {
                if old(self).columns_can_insert() {
                    assert forall|c: ComponentId| #[trigger] self.columns.view().contains_key(c) implies self.columns.view()[c].can_insert() by {
                        assert(old_cols.contains_key(c));
                    }
                }
                if self.columns_can_insert() {
                    assert forall|c: ComponentId| #[trigger] old(self).columns.view().contains_key(c) implies old(self).columns.view()[c].can_insert() by {
                        assert(self.columns.view().contains_key(c));
                    }
                }
            }
        }
    }

    /// Whether every column can store one more value.
    pub fn can_insert_row(&self) -> (res: bool)
        requires
            self.wf(),
        ensures
            res == self.columns_can_insert(),
    {
        let mut i: usize = 0;
        while i < self.components.len()
            invariant
                self.wf(),
                i <= self.components@.len(),
                forall|k: int| 0 <= k < i ==> #[trigger] self.columns.view()[self.components@[k]].can_insert(),
            decreases self.components@.len() - i,
        {
            let c = self.components[i];
            assert(self.components@.contains(c));
            let ok = match self.columns.get(c) {
                Some(column) => column.can_insert_value(),
                None => false,
            };
            if !ok {
                return false;
            }
            i = i + 1;
        }
        assert forall|c: ComponentId| #[trigger] self.columns.view().contains_key(c) implies self.columns.view()[c].can_insert() by {
            assert(self.components@.contains(c));
            let k = choose|k: int| 0 <= k < self.components@.len() && #[trigger] self.components@[k] == c;
        }
        true
    }

    /// Add a row for `entity`, storing `values` (one per component of the archetype,
    /// in the archetype's order). Returns the entity's row in the entity list.
    pub fn insert_row(&mut self, entity: Entity, values: Vec<(ComponentId, Vec<u8>)>) -> (res: usize)
        requires
            old(self).wf(),
            old(self).columns_can_insert(),
            entity.id < u32::MAX,
            values@.len() == old(self).view().components.len(),
            forall|k: int| 0 <= k < values@.len() ==> #[trigger] values@[k].0 == old(self).view().components[k],
            forall|k: int| 0 <= k < values@.len() ==> #[trigger] values@[k].1@.len() == old(self).view().column_types[values@[k].0].size,
            forall|c: ComponentId| #[trigger] old(self).view().columns.contains_key(c) ==> !old(self).view().columns[c].contains_key(entity.id as usize),
        ensures
            final(self).wf(),
            res == old(self).view().entities.len(),
            final(self).view().id == old(self).view().id,
            final(self).view().components == old(self).view().components,
            final(self).view().component_archetype_ids == old(self).view().component_archetype_ids,
            final(self).view().edges == old(self).view().edges,
            final(self).view().column_types == old(self).view().column_types,
            final(self).view().entities == old(self).view().entities.push(entity),
            final(self).view().columns.dom() == old(self).view().columns.dom(),
            forall|k: int| 0 <= k < values@.len() ==> #[trigger] final(self).view().columns[values@[k].0]
                == old(self).view().columns[values@[k].0].insert(entity.id as usize, values@[k].1@),
    {
        let ghost old_cols = self.columns.view();
        let mut i: usize = 0;
        while i < values.len()
            invariant
                i <= values@.len(),
                self.columns.wf(),
                self.id == old(self).id,
                self.components@ == old(self).components@,
                self.component_archetype_ids@ == old(self).component_archetype_ids@,
                self.archetype_component_edges@ == old(self).archetype_component_edges@,
                self.entities@ == old(self).entities@,
                old(self).wf(),
                old_cols == old(self).columns.view(),
                old(self).columns_can_insert(),
                entity.id < u32::MAX,
                values@.len() == old(self).view().components.len(),
                forall|k: int| 0 <= k < values@.len() ==> #[trigger] values@[k].0 == old(self).view().components[k],
                forall|k: int| 0 <= k < values@.len() ==> #[trigger] values@[k].1@.len() == old(self).view().column_types[values@[k].0].size,
                forall|c: ComponentId| #[trigger] old(self).view().columns.contains_key(c) ==> !old(self).view().columns[c].contains_key(entity.id as usize),
                self.columns.view().dom() == old_cols.dom(),
                forall|k: int| i <= k < values@.len() ==> #[trigger] self.columns.view()[values@[k].0] == old_cols[values@[k].0],
                forall|k: int| 0 <= k < i ==> {
                    let c = #[trigger] values@[k].0;
                    &&& self.columns.view()[c].wf()
                    &&& self.columns.view()[c].view() == old_cols[c].view().insert(entity.id as usize, values@[k].1@)
                    &&& self.columns.view()[c].spec_type_info() == old_cols[c].spec_type_info()
                },
            decreases values@.len() - i,
        {
            let cid = values[i].0;
            assert(self.components@[i as int] == cid);
            assert(old(self).components@.contains(cid));
            assert(old_cols.contains_key(cid));
            assert(old(self).view().columns.contains_key(cid));
            assert(old(self).view().columns[cid] == old_cols[cid].view());
            let dummy = Column::new(&ComponentInfo { type_info: TypeInfo { size: 0, align: 1 } });
            let mut column = self.columns.replace(cid, dummy);
            assert(column == old_cols[cid]);
            column.components.insert_unchecked(entity.id as usize, values[i].1.as_slice());
            let _ = self.columns.replace(cid, column);
            proof {
                assert forall|k: int| i < k < values@.len() implies #[trigger] self.columns.view()[values@[k].0] == old_cols[values@[k].0] by {
                    assert(values@[k].0 != cid);
                }
                assert forall|k: int| 0 <= k < i implies {
                    let c = #[trigger] values@[k].0;
                    &&& self.columns.view()[c].wf()
                    &&& self.columns.view()[c].view() == old_cols[c].view().insert(entity.id as usize, values@[k].1@)
                    &&& self.columns.view()[c].spec_type_info() == old_cols[c].spec_type_info()
                } by {
                    assert(values@[k].0 != cid);
                }
                assert(self.columns.view().dom() =~= old_cols.dom());
            }
            i = i + 1;
        }
        self.entities.push(entity);
        proof {
            assert forall|c: ComponentId| #[trigger] self.columns.view().contains_key(c) implies self.columns.view()[c].wf() && (forall|e: usize|
                #[trigger] self.columns.view()[c].view().contains_key(e) ==> self.columns.view()[c].view()[e].len() == self.columns.view()[c].spec_type_info().size) by {
                assert(self.components@.contains(c));
                let k = choose|k: int| 0 <= k < self.components@.len() && #[trigger] self.components@[k] == c;
                assert(values@[k].0 == c);
            }
            assert(self.view().columns.dom() =~= old(self).view().columns.dom());
            assert(self.view().column_types =~= old(self).view().column_types) by {
                assert forall|c: ComponentId| #[trigger] self.view().column_types.contains_key(c) implies self.view().column_types[c] == old(self).view().column_types[c] by {
                    assert(self.components@.contains(c));
                    let k = choose|k: int| 0 <= k < self.components@.len() && #[trigger] self.components@[k] == c;
                    assert(values@[k].0 == c);
                }
            }
        }
        self.entities.len() - 1
    }

    /// Remove the row of `entity`: the entity list loses position `entity_index` (the last
    /// entity takes its place) and every column loses the entity's value. The removed
    /// values are handed back in the archetype's component order.
    pub fn remove_row(&mut self, entity_index: usize, entity: Entity) -> (removed: Vec<(ComponentId, Vec<u8>)>)
        requires
            old(self).wf(),
            entity_index < old(self).view().entities.len(),
            forall|c: ComponentId| #[trigger] old(self).view().columns.contains_key(c) ==> old(self).view().columns[c].contains_key(entity.id as usize),
        ensures
            final(self).wf(),
            final(self).view().id == old(self).view().id,
            final(self).view().components == old(self).view().components,
            final(self).view().component_archetype_ids == old(self).view().component_archetype_ids,
            final(self).view().edges == old(self).view().edges,
            final(self).view().column_types == old(self).view().column_types,
            final(self).view().entities == old(self).view().entities.update(entity_index as int, old(self).view().entities.last()).drop_last(),
            final(self).view().columns.dom() == old(self).view().columns.dom(),
            forall|c: ComponentId| #[trigger] final(self).view().columns.contains_key(c) ==>
                final(self).view().columns[c] == old(self).view().columns[c].remove(entity.id as usize),
            removed@.len() == old(self).view().components.len(),
            forall|k: int| 0 <= k < removed@.len() ==> (#[trigger] removed@[k]).0 == old(self).view().components[k]
                && removed@[k].1@ == old(self).view().columns[old(self).view().components[k]][entity.id as usize],
    {
        let ghost old_cols = self.columns.view();
        self.entities.swap_remove(entity_index);
        let mut removed: Vec<(ComponentId, Vec<u8>)> = Vec::new();
        let mut i: usize = 0;
        while i < self.components.len()
            invariant
                i <= self.components@.len(),
                self.columns.wf(),
                self.components@ == old(self).components@,
                self.id == old(self).id,
                self.component_archetype_ids@ == old(self).component_archetype_ids@,
                self.archetype_component_edges@ == old(self).archetype_component_edges@,
                self.entities@ == old(self).entities@.update(entity_index as int, old(self).entities@.last()).drop_last(),
                old(self).wf(),
                old_cols == old(self).columns.view(),
                forall|c: ComponentId| #[trigger] old(self).view().columns.contains_key(c) ==> old(self).view().columns[c].contains_key(entity.id as usize),
                self.columns.view().dom() == old_cols.dom(),
                forall|k: int| i <= k < self.components@.len() ==> #[trigger] self.columns.view()[self.components@[k]] == old_cols[self.components@[k]],
                forall|k: int| 0 <= k < i ==> {
                    let c = #[trigger] self.components@[k];
                    &&& self.columns.view()[c].wf()
                    &&& self.columns.view()[c].view() == old_cols[c].view().remove(entity.id as usize)
                    &&& self.columns.view()[c].spec_type_info() == old_cols[c].spec_type_info()
                },
                removed@.len() == i,
                forall|k: int| 0 <= k < i ==> (#[trigger] removed@[k]).0 == self.components@[k]
                    && removed@[k].1@ == old_cols[self.components@[k]].view()[entity.id as usize],
            decreases self.components@.len() - i,
        {
            let cid = self.components[i];
            assert(old(self).components@.contains(cid));
            assert(old_cols.contains_key(cid));
            assert(old(self).view().columns.contains_key(cid));
            assert(old(self).view().columns[cid] == old_cols[cid].view());
            let dummy = Column::new(&ComponentInfo { type_info: TypeInfo { size: 0, align: 1 } });
            let mut column = self.columns.replace(cid, dummy);
            let value = column.components.remove(entity.id as usize);
            removed.push((cid, value));
            let _ = self.columns.replace(cid, column);
            proof {
                assert forall|k: int| i < k < self.components@.len() implies #[trigger] self.columns.view()[self.components@[k]] == old_cols[self.components@[k]] by {
                    assert(self.components@[k] != cid);
                }
                assert forall|k: int| 0 <= k < i implies {
                    let c = #[trigger] self.components@[k];
                    &&& self.columns.view()[c].wf()
                    &&& self.columns.view()[c].view() == old_cols[c].view().remove(entity.id as usize)
                    &&& self.columns.view()[c].spec_type_info() == old_cols[c].spec_type_info()
                } by {
                    assert(self.components@[k] != cid);
                }
                assert(self.columns.view().dom() =~= old_cols.dom());
            }
            i = i + 1;
        }
        proof {
            assert forall|c: ComponentId| #[trigger] self.columns.view().contains_key(c) implies {
                &&& self.columns.view()[c].wf()
                &&& self.columns.view()[c].view() == old_cols[c].view().remove(entity.id as usize)
                &&& self.columns.view()[c].spec_type_info() == old_cols[c].spec_type_info()
            } by {
                assert(self.components@.contains(c));
                let k = choose|k: int| 0 <= k < self.components@.len() && #[trigger] self.components@[k] == c;
            }
            assert(self.view().columns.dom() =~= old(self).view().columns.dom());
            assert(self.view().column_types =~= old(self).view().column_types);
            assert forall|k: int| 0 <= k < removed@.len() implies (#[trigger] removed@[k]).0 == old(self).view().components[k]
                && removed@[k].1@ == old(self).view().columns[old(self).view().components[k]][entity.id as usize] by {
                assert(old_cols.contains_key(self.components@[k]));
            }
        }
        removed
    }
}

} // verus!
