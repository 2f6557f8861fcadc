//! Entity handles and the registry that allocates and recycles them.
use vstd::prelude::*;

verus! {

/// Identifies which archetype stores an entity (an index into the archetype registry).
pub type ArchetypeId = usize;

/// A handle to an entity: an id, recycled after the entity is freed, and the
/// generation of that id when the handle was created.
#[derive(Copy, Clone, Hash, PartialEq, Eq, Structural, PartialOrd, Ord, Debug)]
pub struct Entity {
    pub generation: u32,
    pub id: u32,
}

impl Entity {
    pub fn generation(&self) -> (res: u32)
        ensures
            res == self.generation,
    {
        self.generation
    }

    pub fn id(&self) -> (res: u32)
        ensures
            res == self.id,
    {
        self.id
    }
}

/// Per-id bookkeeping: current generation of the id, and where the live entity is stored.
pub struct EntityData {
    pub generation: u32,
    pub archetype: Option<(ArchetypeId, usize)>,
}

/// Allocates entity handles, recycling the ids of freed entities (last freed, first reused).
pub struct EntityRegistry {
    datas: Vec<EntityData>,
    available_ids: Vec<u32>,
    free_id: u32,
    entity_count: u32,
}

/// Abstract state of an [`EntityRegistry`].
pub struct EntityRegistryView {
    /// Generation of every id ever handed out (indexed by id).
    pub generations: Seq<u32>,
    /// Archetype location recorded for every id (indexed by id).
    pub locations: Seq<Option<(ArchetypeId, usize)>>,
    /// Ids waiting to be reused; the last one is reused first.
    pub available: Seq<u32>,
    /// Number of entities currently counted as alive.
    pub count: u32,
}

impl EntityRegistryView {
    /// Number of ids handed out so far.
    pub open spec fn next_id(self) -> nat {
        self.generations.len()
    }

    /// The invariant kept by every operation of the registry.
    pub open spec fn wf(self) -> bool {
        &&& self.locations.len() == self.generations.len()
        &&& self.generations.len() <= u32::MAX
        &&& forall|i: int| 0 <= i < self.available.len() ==> #[trigger] self.available[i] < self.generations.len()
        &&& self.count + self.available.len() == self.generations.len()
        &&& self.available.no_duplicates()
    }

    /// `entity` is valid and its id is in use: it waits in no list for reuse.
    pub open spec fn is_live(self, entity: Entity) -> bool {
        self.is_valid(entity) && !self.available.contains(entity.id)
    }

    /// `entity` refers to an id that was handed out and has the current generation.
    pub open spec fn is_valid(self, entity: Entity) -> bool {
        entity.id < self.generations.len() && self.generations[entity.id as int] == entity.generation
    }

    /// Whether an allocation can proceed without overflowing the id counter.
    pub open spec fn can_alloc(self) -> bool {
        self.available.len() > 0 || self.generations.len() < u32::MAX
    }

    /// The entity that the next allocation hands out.
    pub open spec fn next_entity(self) -> Entity {
        if self.available.len() > 0 {
            let id = self.available.last();
            Entity { generation: self.generations[id as int], id }
        } else {
            Entity { generation: 0, id: self.generations.len() as u32 }
        }
    }

    /// The state after an allocation.
    pub open spec fn after_alloc(self) -> EntityRegistryView {
        if self.available.len() > 0 {
            EntityRegistryView {
                available: self.available.drop_last(),
                count: (self.count + 1) as u32,
                ..self
            }
        } else {
            EntityRegistryView {
                generations: self.generations.push(0),
                locations: self.locations.push(None),
                count: (self.count + 1) as u32,
                ..self
            }
        }
    }

    /// Whether `entity` can be freed without an out-of-range index or an arithmetic overflow.
    pub open spec fn can_free(self, entity: Entity) -> bool {
        &&& entity.id < self.generations.len()
        &&& !self.available.contains(entity.id)
        &&& self.generations[entity.id as int] < u32::MAX
    }

    /// The state after freeing `entity`.
    pub open spec fn after_free(self, entity: Entity) -> EntityRegistryView {
        EntityRegistryView {
            generations: self.generations.update(entity.id as int, (self.generations[entity.id as int] + 1) as u32),
            locations: self.locations.update(entity.id as int, None),
            available: self.available.push(entity.id),
            count: (self.count - 1) as u32,
        }
    }
}

impl EntityRegistry {
    pub closed spec fn view(&self) -> EntityRegistryView {
        EntityRegistryView {
            generations: Seq::new(self.datas@.len(), |i: int| self.datas@[i].generation),
            locations: Seq::new(self.datas@.len(), |i: int| self.datas@[i].archetype),
            available: self.available_ids@,
            count: self.entity_count,
        }
    }

    pub closed spec fn wf(&self) -> bool {
        &&& self.view().wf()
        &&& self.free_id == self.datas@.len()
    }

    /// The invariant of the abstract state follows from the registry's own.
    pub proof fn lemma_view_wf(&self)
        requires
            self.wf(),
        ensures
            self.view().wf(),
    {
    }

    /// An empty registry.
    pub fn new() -> (res: Self)
        ensures
            res.wf(),
            res.view() == (EntityRegistryView {
                generations: Seq::empty(),
                locations: Seq::empty(),
                available: Seq::empty(),
                count: 0,
            }),
    {
        let res = EntityRegistry { datas: Vec::new(), available_ids: Vec::new(), free_id: 0, entity_count: 0 };
        assert(res.view().generations =~= Seq::<u32>::empty());
        assert(res.view().locations =~= Seq::<Option<(ArchetypeId, usize)>>::empty());
        assert(res.view().available =~= Seq::<u32>::empty());
        res
    }

    /// Hand out a new entity, reusing the id freed last if there is one.
    pub fn allocate(&mut self) -> (entity: Entity)
        requires
            old(self).wf(),
            old(self).view().can_alloc(),
        ensures
            final(self).wf(),
            entity == old(self).view().next_entity(),
            final(self).view() == old(self).view().after_alloc(),
            final(self).view().is_valid(entity),
    {
        let ghost old_view = self.view();
        if let Some(id) = self.available_ids.pop() {
            self.entity_count = self.entity_count + 1;
            let generation = self.datas[id as usize].generation;
            let entity = Entity { generation, id };
            assert(self.view().generations =~= old_view.generations);
            assert(self.view().locations =~= old_view.locations);
            entity
        } else {
            self.datas.push(EntityData { generation: 0, archetype: None });
            let id = self.free_id;
            self.free_id = self.free_id + 1;
            self.entity_count = self.entity_count + 1;
            assert(self.view().generations =~= old_view.generations.push(0));
            assert(self.view().locations =~= old_view.locations.push(None));
            Entity { generation: 0, id }
        }
    }

    /// Free `entity`: its id gets a new generation (so `entity` is no longer valid) and
    /// becomes available for reuse.
    pub fn free(&mut self, entity: Entity)
        requires
            old(self).wf(),
            old(self).view().can_free(entity),
        ensures
            final(self).wf(),
            final(self).view() == old(self).view().after_free(entity),
            old(self).view().is_valid(entity) ==> !final(self).view().is_valid(entity),
    {
        let ghost old_view = self.view();
        proof {
            lemma_id_in_use_is_counted(old_view, entity.id);
            lemma_distinct_ids(old_view.available, entity.id);
        }
        let idx = entity.id as usize;
        let generation = self.datas[idx].generation;
        self.datas.set(idx, EntityData { generation: generation + 1, archetype: None });
        self.entity_count = self.entity_count - 1;
        self.available_ids.push(entity.id);
        assert(self.view().generations =~= old_view.after_free(entity).generations);
        assert(self.view().locations =~= old_view.after_free(entity).locations);
    }

    /// Record where the entity's components are stored.
    pub fn set_archetype_id(&mut self, entity: Entity, archetype: ArchetypeId, index: usize)
        requires
            old(self).wf(),
            entity.id < old(self).view().next_id(),
        ensures
            final(self).wf(),
            final(self).view() == (EntityRegistryView {
                locations: old(self).view().locations.update(entity.id as int, Some((archetype, index))),
                ..old(self).view()
            }),
    {
        let ghost old_view = self.view();
        let idx = entity.id as usize;
        let generation = self.datas[idx].generation;
        self.datas.set(idx, EntityData { generation, archetype: Some((archetype, index)) });
        assert(self.view().generations =~= old_view.generations);
        assert(self.view().locations =~= old_view.locations.update(entity.id as int, Some((archetype, index))));
    }

    /// Whether the id of `entity` still has the entity's generation.
    pub fn is_valid(&self, entity: Entity) -> (res: bool)
        requires
            self.wf(),
            entity.id < self.view().next_id(),
        ensures
            res == self.view().is_valid(entity),
    {
        self.datas[entity.id as usize].generation == entity.generation
    }

    /// Where the entity's components are stored: archetype and row.
    pub fn archetype_id(&self, entity: Entity) -> (res: (ArchetypeId, usize))
        requires
            self.wf(),
            entity.id < self.view().next_id(),
            self.view().locations[entity.id as int] is Some,
        ensures
            res == self.view().locations[entity.id as int]->0,
    {
        match self.datas[entity.id as usize].archetype {
            Some(loc) => loc,
            None => (0, 0),
        }
    }

    /// Where the entity's components are stored, if anywhere.
    pub fn location(&self, entity: Entity) -> (res: Option<(ArchetypeId, usize)>)
        requires
            self.wf(),
            entity.id < self.view().next_id(),
        ensures
            res == self.view().locations[entity.id as int],
    {
        self.datas[entity.id as usize].archetype
    }

    /// The handle of id `id` with its current generation.
    pub fn entity(&self, id: u32) -> (res: Entity)
        requires
            self.wf(),
            id < self.view().next_id(),
        ensures
            res == (Entity { generation: self.view().generations[id as int], id }),
            self.view().is_valid(res),
    {
        Entity { generation: self.datas[id as usize].generation, id }
    }

    /// Number of entities alive.
    pub fn count(&self) -> (res: u32)
        requires
            self.wf(),
        ensures
            res == self.view().count,
    {
        self.entity_count
    }

    /// Whether an allocation can proceed without overflowing the id counter.
    pub fn can_alloc(&self) -> (res: bool)
        requires
            self.wf(),
        ensures
            res == self.view().can_alloc(),
    {
        self.available_ids.len() > 0 || self.free_id < u32::MAX
    }

    /// Number of ids handed out so far.
    pub fn next_id(&self) -> (res: u32)
        requires
            self.wf(),
        ensures
            res == self.view().next_id(),
    {
        self.free_id
    }
}

impl Default for EntityRegistry {
    fn default() -> (res: Self)
        ensures
            res.wf(),
            res.view().generations.len() == 0,
            res.view().available.len() == 0,
            res.view().count == 0,
    {
        EntityRegistry::new()
    }
}

/// Pushing an id that a list of distinct ids does not hold keeps them distinct, and
/// dropping the last one too.
proof fn lemma_distinct_ids(s: Seq<u32>, x: u32)
    requires
        s.no_duplicates(),
    ensures
        !s.contains(x) ==> s.push(x).no_duplicates(),
        s.len() > 0 ==> s.drop_last().no_duplicates(),
{
    if !s.contains(x) {
        let t = s.push(x);
        assert forall|i: int, j: int| 0 <= i < t.len() && 0 <= j < t.len() && i != j implies t[i] != t[j] by {
            if i == s.len() {
                assert(t[j] == s[j]);
            } else if j == s.len() {
                assert(t[i] == s[i]);
            } else {
                assert(t[i] == s[i] && t[j] == s[j]);
            }
        }
    }
    if s.len() > 0 {
        let t = s.drop_last();
        assert forall|i: int, j: int| 0 <= i < t.len() && 0 <= j < t.len() && i != j implies t[i] != t[j] by {
            assert(t[i] == s[i] && t[j] == s[j]);
        }
    }
}

/// An id in use is counted: while some id below the counter waits in no reuse list,
/// the count of entities is positive (the reuse list holds distinct ids below the
/// counter, so it cannot hold them all).
pub proof fn lemma_id_in_use_is_counted(registry: EntityRegistryView, id: u32)
    requires
        registry.wf(),
        id < registry.generations.len(),
        !registry.available.contains(id),
    ensures
        registry.count > 0,
{
    let n = registry.generations.len() as int;
    let ints = registry.available.map_values(|x: u32| x as int);
    assert(ints.no_duplicates()) by {
        assert forall|i: int, j: int| 0 <= i < ints.len() && 0 <= j < ints.len() && i != j implies ints[i] != ints[j] by {
            assert(registry.available[i] != registry.available[j]);
        }
    }
    ints.unique_seq_to_set();
    let range = vstd::set_lib::set_int_range(0, n).remove(id as int);
    vstd::set_lib::lemma_int_range(0, n);
    assert(ints.to_set().subset_of(range)) by {
        assert forall|x: int| #[trigger] ints.to_set().contains(x) implies range.contains(x) by {
            let k = choose|k: int| 0 <= k < ints.len() && ints[k] == x;
            assert(registry.available[k] < n);
            if x == id as int {
                assert(registry.available[k] == id);
                assert(registry.available.contains(id));
            }
        }
    }
    vstd::set_lib::lemma_len_subset(ints.to_set(), range);
}

/// Freeing a valid entity and allocating again hands out the same id with the next
/// generation; the freed handle stays invalid and the new one is valid.
pub proof fn lemma_free_then_allocate_recycles_id(registry: EntityRegistryView, entity: Entity)
    requires
        registry.wf(),
        registry.is_valid(entity),
        registry.can_free(entity),
    ensures
        registry.after_free(entity).wf(),
        registry.after_free(entity).can_alloc(),
        registry.after_free(entity).next_entity() == (Entity { generation: (entity.generation + 1) as u32, id: entity.id }),
        registry.after_free(entity).after_alloc().is_valid(registry.after_free(entity).next_entity()),
        !registry.after_free(entity).after_alloc().is_valid(entity),
        registry.after_free(entity).after_alloc().count == registry.count,
{
    lemma_id_in_use_is_counted(registry, entity.id);
    lemma_distinct_ids(registry.available, entity.id);
    let freed = registry.after_free(entity);
    assert(freed.available.last() == entity.id);
    lemma_distinct_ids(freed.available, entity.id);
    assert forall|i: int| 0 <= i < freed.available.len() implies #[trigger] freed.available[i] < freed.generations.len() by {
        if i < registry.available.len() {
            assert(freed.available[i] == registry.available[i]);
        }
    }
}

/// Every allocation and every free keeps the registry's invariant, and an allocation
/// always hands out a valid entity whose id was handed out before or is the next fresh id.
pub proof fn lemma_operations_keep_invariant(registry: EntityRegistryView, entity: Entity)
    requires
        registry.wf(),
    ensures
        registry.can_alloc() ==> registry.after_alloc().wf(),
        registry.can_alloc() ==> registry.after_alloc().is_valid(registry.next_entity()),
        registry.can_alloc() ==> registry.after_alloc().count == registry.count + 1,
        registry.can_free(entity) ==> registry.after_free(entity).wf(),
        registry.can_free(entity) ==> registry.after_free(entity).count == registry.count - 1,
{
    lemma_distinct_ids(registry.available, entity.id);
    if registry.can_free(entity) {
        lemma_id_in_use_is_counted(registry, entity.id);
    }
    if registry.can_alloc() {
        let a = registry.after_alloc();
        if registry.available.len() > 0 {
            assert forall|i: int| 0 <= i < a.available.len() implies #[trigger] a.available[i] < a.generations.len() by {
                assert(a.available[i] == registry.available[i]);
            }
            assert(registry.available[registry.available.len() - 1] < registry.generations.len());
        } else {
            assert forall|i: int| 0 <= i < a.available.len() implies #[trigger] a.available[i] < a.generations.len() by {
            }
        }
    }
    if registry.can_free(entity) {
        let f = registry.after_free(entity);
        assert forall|i: int| 0 <= i < f.available.len() implies #[trigger] f.available[i] < f.generations.len() by {
            if i < registry.available.len() {
                assert(f.available[i] == registry.available[i]);
            }
        }
    }
}

/// Allocating an entity and freeing it again leaves the count as it was, the entity
/// invalid, and its id ready to be handed out next with the next generation.
pub proof fn lemma_allocate_then_free(registry: EntityRegistryView)
    requires
        registry.wf(),
        registry.can_alloc(),
        registry.after_alloc().can_free(registry.next_entity()),
    ensures
        registry.after_alloc().after_free(registry.next_entity()).wf(),
        registry.after_alloc().after_free(registry.next_entity()).count == registry.count,
        !registry.after_alloc().after_free(registry.next_entity()).is_valid(registry.next_entity()),
        registry.after_alloc().after_free(registry.next_entity()).next_entity() == (Entity {
            generation: (registry.next_entity().generation + 1) as u32,
            id: registry.next_entity().id,
        }),
{
    let e = registry.next_entity();
    lemma_operations_keep_invariant(registry, e);
    lemma_operations_keep_invariant(registry.after_alloc(), e);
}

/// A call on an entity registry, as it stands in a history.
pub enum EntityOp {
    Allocate,
    Free(Entity),
    SetArchetype(Entity, ArchetypeId, usize),
}

/// The registry with no id handed out.
pub open spec fn empty_registry() -> EntityRegistryView {
    EntityRegistryView { generations: Seq::empty(), locations: Seq::empty(), available: Seq::empty(), count: 0 }
}

/// `op` can be made on `v`: what the call's precondition asks.
pub open spec fn op_allowed(v: EntityRegistryView, op: EntityOp) -> bool {
    match op {
        EntityOp::Allocate => v.can_alloc(),
        EntityOp::Free(e) => v.can_free(e),
        EntityOp::SetArchetype(e, _, _) => e.id < v.next_id(),
    }
}

/// The registry after `op`, as the call's contract gives it.
pub open spec fn after_op(v: EntityRegistryView, op: EntityOp) -> EntityRegistryView {
    match op {
        EntityOp::Allocate => v.after_alloc(),
        EntityOp::Free(e) => v.after_free(e),
        EntityOp::SetArchetype(e, a, i) => EntityRegistryView {
            locations: v.locations.update(e.id as int, Some((a, i))),
            ..v
        },
    }
}

/// The registry after the calls of `ops`, in order.
pub open spec fn after_ops(v: EntityRegistryView, ops: Seq<EntityOp>) -> EntityRegistryView
    decreases ops.len(),
{
    if ops.len() == 0 {
        v
    } else {
        after_op(after_ops(v, ops.drop_last()), ops.last())
    }
}

/// Every call of `ops` is allowed where it is made.
pub open spec fn ops_allowed(v: EntityRegistryView, ops: Seq<EntityOp>) -> bool
    decreases ops.len(),
{
    ops.len() == 0 || (ops_allowed(v, ops.drop_last()) && op_allowed(after_ops(v, ops.drop_last()), ops.last()))
}

/// The number of allocations in `ops`.
pub open spec fn allocations(ops: Seq<EntityOp>) -> nat
    decreases ops.len(),
{
    if ops.len() == 0 {
        0
    } else {
        allocations(ops.drop_last()) + if ops.last() is Allocate { 1nat } else { 0nat }
    }
}

/// The number of frees in `ops`.
pub open spec fn frees(ops: Seq<EntityOp>) -> nat
    decreases ops.len(),
{
    if ops.len() == 0 {
        0
    } else {
        frees(ops.drop_last()) + if ops.last() is Free { 1nat } else { 0nat }
    }
}

/// The number of frees of id `id` in `ops`.
pub open spec fn frees_of(ops: Seq<EntityOp>, id: u32) -> nat
    decreases ops.len(),
{
    if ops.len() == 0 {
        0
    } else {
        frees_of(ops.drop_last(), id) + match ops.last() {
            EntityOp::Free(e) => if e.id == id { 1nat } else { 0nat },
            _ => 0nat,
        }
    }
}

/// Where `ops` last put id `id`: the last archetype set for it, or none when a free
/// came after (or nothing was set).
pub open spec fn last_location(ops: Seq<EntityOp>, id: u32) -> Option<(ArchetypeId, usize)>
    decreases ops.len(),
{
    if ops.len() == 0 {
        None
    } else {
        match ops.last() {
            EntityOp::Free(e) => if e.id == id { None } else { last_location(ops.drop_last(), id) },
            EntityOp::SetArchetype(e, a, i) => if e.id == id { Some((a, i)) } else { last_location(ops.drop_last(), id) },
            EntityOp::Allocate => last_location(ops.drop_last(), id),
        }
    }
}

/// Over any allowed history from an empty registry: the count is the allocations minus
/// the frees; the generation of each id handed out is the number of its frees (an id
/// never handed out was never freed); each id's location is the last one set for it
/// since its last free; and two valid handles with one id are the same handle.
pub proof fn lemma_history(ops: Seq<EntityOp>)
    requires
        ops_allowed(empty_registry(), ops),
    ensures
        after_ops(empty_registry(), ops).wf(),
        after_ops(empty_registry(), ops).count == allocations(ops) - frees(ops),
        forall|id: u32| id < after_ops(empty_registry(), ops).next_id() ==>
            #[trigger] after_ops(empty_registry(), ops).generations[id as int] == frees_of(ops, id),
        forall|id: u32| id >= after_ops(empty_registry(), ops).next_id() ==> #[trigger] frees_of(ops, id) == 0,
        forall|id: u32| id >= after_ops(empty_registry(), ops).next_id() ==> #[trigger] last_location(ops, id) is None,
        forall|id: u32| id < after_ops(empty_registry(), ops).next_id() ==>
            #[trigger] after_ops(empty_registry(), ops).locations[id as int] == last_location(ops, id),
        forall|e1: Entity, e2: Entity| after_ops(empty_registry(), ops).is_valid(e1)
            && after_ops(empty_registry(), ops).is_valid(e2) && e1.id == e2.id ==> e1 == e2,
    decreases ops.len(),
{
    if ops.len() == 0 {
        assert(empty_registry().wf());
    } else {
        let rest = ops.drop_last();
        lemma_history(rest);
        let v = after_ops(empty_registry(), rest);
        let w = after_ops(empty_registry(), ops);
        let op = ops.last();
        assert(w == after_op(v, op));
        match op {
            EntityOp::Allocate => {
                lemma_operations_keep_invariant(v, Entity { generation: 0, id: 0 });
                if v.available.len() > 0 {
                    assert(v.available.last() < v.next_id());
                }
                assert forall|id: u32| id < w.next_id() implies #[trigger] w.generations[id as int] == frees_of(ops, id) by {
                    assert(frees_of(ops, id) == frees_of(rest, id));
                }
                assert forall|id: u32| id >= w.next_id() implies #[trigger] frees_of(ops, id) == 0 by {
                    assert(frees_of(ops, id) == frees_of(rest, id));
                }
                assert forall|id: u32| id < w.next_id() implies #[trigger] w.locations[id as int] == last_location(ops, id) by {
                    assert(last_location(ops, id) == last_location(rest, id));
                    if id >= v.next_id() {
                        assert(last_location(rest, id) is None);
                    }
                }
                assert forall|id: u32| id >= w.next_id() implies #[trigger] last_location(ops, id) is None by {
                    assert(last_location(ops, id) == last_location(rest, id));
                }
            },
            EntityOp::Free(e) => {
                lemma_operations_keep_invariant(v, e);
                assert forall|id: u32| id < w.next_id() implies #[trigger] w.generations[id as int] == frees_of(ops, id) by {
                    assert(v.generations[id as int] == frees_of(rest, id));
                }
                assert forall|id: u32| id >= w.next_id() implies #[trigger] frees_of(ops, id) == 0 by {
                    assert(frees_of(rest, id) == 0);
                }
                assert forall|id: u32| id < w.next_id() implies #[trigger] w.locations[id as int] == last_location(ops, id) by {
                    assert(v.locations[id as int] == last_location(rest, id));
                }
                assert forall|id: u32| id >= w.next_id() implies #[trigger] last_location(ops, id) is None by {
                    assert(last_location(rest, id) is None);
                }
            },
            EntityOp::SetArchetype(e, a, i) => {
                assert forall|id: u32| id < w.next_id() implies #[trigger] w.generations[id as int] == frees_of(ops, id) by {
                    assert(v.generations[id as int] == frees_of(rest, id));
                }
                assert forall|id: u32| id >= w.next_id() implies #[trigger] frees_of(ops, id) == 0 by {
                    assert(frees_of(rest, id) == 0);
                }
                assert forall|id: u32| id < w.next_id() implies #[trigger] w.locations[id as int] == last_location(ops, id) by {
                    assert(v.locations[id as int] == last_location(rest, id));
                }
                assert forall|id: u32| id >= w.next_id() implies #[trigger] last_location(ops, id) is None by {
                    assert(last_location(rest, id) is None);
                }
            },
        }
    }
}

/// Splitting a history splits the frees of each id.
proof fn lemma_frees_split(ops: Seq<EntityOp>, j: int, id: u32)
    requires
        0 <= j <= ops.len(),
    ensures
        frees_of(ops, id) == frees_of(ops.take(j), id) + frees_of(ops.skip(j), id),
    decreases ops.len(),
{
    if j == ops.len() {
        assert(ops.take(j) =~= ops);
        assert(ops.skip(j).len() == 0);
    } else {
        let rest = ops.drop_last();
        lemma_frees_split(rest, j, id);
        assert(rest.take(j) =~= ops.take(j));
        assert(rest.skip(j) =~= ops.skip(j).drop_last());
        assert(ops.skip(j).last() == ops.last());
    }
}

/// A prefix of an allowed history is allowed, and the ids handed out only grow.
proof fn lemma_history_prefix(ops: Seq<EntityOp>, j: int)
    requires
        ops_allowed(empty_registry(), ops),
        0 <= j <= ops.len(),
    ensures
        ops_allowed(empty_registry(), ops.take(j)),
        after_ops(empty_registry(), ops.take(j)).next_id() <= after_ops(empty_registry(), ops).next_id(),
    decreases ops.len(),
{
    if j == ops.len() {
        assert(ops.take(j) =~= ops);
    } else {
        let rest = ops.drop_last();
        lemma_history_prefix(rest, j);
        assert(rest.take(j) =~= ops.take(j));
        lemma_history(rest);
        let v = after_ops(empty_registry(), rest);
        assert(after_ops(empty_registry(), ops) == after_op(v, ops.last()));
    }
}

/// A handle handed out by the allocation at position `k` of an allowed history stays
/// valid exactly as long as no later call frees its id.
pub proof fn lemma_allocated_handle_validity(ops: Seq<EntityOp>, k: int)
    requires
        ops_allowed(empty_registry(), ops),
        0 <= k < ops.len(),
        ops[k] is Allocate,
    ensures
        after_ops(empty_registry(), ops).is_valid(after_ops(empty_registry(), ops.take(k)).next_entity())
            <==> frees_of(ops.skip(k + 1), after_ops(empty_registry(), ops.take(k)).next_entity().id) == 0,
{
    let p = ops.take(k);
    let q = ops.take(k + 1);
    lemma_history_prefix(ops, k);
    lemma_history_prefix(ops, k + 1);
    lemma_history(p);
    lemma_history(q);
    lemma_history(ops);
    let v = after_ops(empty_registry(), p);
    let e = v.next_entity();
    assert(q.drop_last() =~= p);
    assert(q.last() == ops[k]);
    assert(after_ops(empty_registry(), q) == v.after_alloc());
    assert(frees_of(q, e.id) == frees_of(p, e.id));
    if v.available.len() > 0 {
        assert(v.available.last() < v.next_id());
    }
    assert(e.generation == frees_of(p, e.id));
    lemma_frees_split(ops, k + 1, e.id);
}

} // verus!
