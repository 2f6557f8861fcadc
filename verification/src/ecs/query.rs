//! Queries: the archetypes that hold what a query reads and writes (and those it
//! filters on), the accesses that this makes, and the entities and values found there.
use vstd::prelude::*;
use crate::ecs::access::{Access, AccessView};
use crate::ecs::archetype::{position_of, lemma_position_of, ArchetypeView};
use crate::ecs::bits::max_bits;
use crate::ecs::component::ComponentId;
use crate::ecs::entity::ArchetypeId;
use crate::ecs::archetype_registry::ArchetypeRegistry;
use crate::ecs::entity::Entity;
use crate::ecs::world::{World, WorldView};

verus! {

/// One part of a query: a component read or written, or a component that the entities
/// must have (`With`) or must not have (`Without`).
#[derive(Copy, Clone, PartialEq, Eq, Structural, Debug)]
pub enum QueryTerm {
    Read(ComponentId),
    Write(ComponentId),
    With(ComponentId),
    Without(ComponentId),
}

/// The component that a term names.
pub open spec fn term_component(t: QueryTerm) -> ComponentId {
    match t {
        QueryTerm::Read(c) => c,
        QueryTerm::Write(c) => c,
        QueryTerm::With(c) => c,
        QueryTerm::Without(c) => c,
    }
}

/// An archetype made of `components` satisfies the term.
pub open spec fn term_matches(t: QueryTerm, components: Seq<ComponentId>) -> bool {
    match t {
        QueryTerm::Without(c) => !components.contains(c),
        _ => components.contains(term_component(t)),
    }
}

/// An archetype made of `components` satisfies every term.
pub open spec fn query_matches(terms: Seq<QueryTerm>, components: Seq<ComponentId>) -> bool {
    forall|i: int| 0 <= i < terms.len() ==> #[trigger] term_matches(terms[i], components)
}

/// The archetype-component id of component `c` in archetype `a`.
pub open spec fn column_id(a: ArchetypeView, c: ComponentId) -> nat {
    a.component_archetype_ids[position_of(a.components, c).unwrap()] as nat
}

/// The access after the term records its read or write of archetype `a`.
pub open spec fn term_access(acc: AccessView, t: QueryTerm, a: ArchetypeView) -> AccessView {
    match t {
        QueryTerm::Read(c) => acc.after_add_read(column_id(a, c)),
        QueryTerm::Write(c) => acc.after_add_write(column_id(a, c)),
        _ => acc,
    }
}

/// The access after the first `k` terms record their reads and writes of `a`.
pub open spec fn terms_access(acc: AccessView, terms: Seq<QueryTerm>, a: ArchetypeView, k: nat) -> AccessView
    decreases k,
{
    if k == 0 || k > terms.len() {
        acc
    } else {
        term_access(terms_access(acc, terms, a, (k - 1) as nat), terms[k - 1], a)
    }
}

/// Recording the first `k` terms never asks the access for more bits than it can hold.
pub open spec fn terms_fit(acc: AccessView, terms: Seq<QueryTerm>, a: ArchetypeView, k: nat) -> bool
    decreases k,
{
    if k == 0 || k > terms.len() {
        true
    } else {
        &&& terms_fit(acc, terms, a, (k - 1) as nat)
        &&& match terms[k - 1] {
            QueryTerm::Read(c) => terms_access(acc, terms, a, (k - 1) as nat).reads.len() + column_id(a, c) + 1 <= max_bits(),
            QueryTerm::Write(c) => terms_access(acc, terms, a, (k - 1) as nat).reads.len() + column_id(a, c) + 1 <= max_bits(),
            _ => true,
        }
    }
}

/// Fitting the first `k` terms includes fitting fewer.
proof fn lemma_terms_fit_prefix(acc: AccessView, terms: Seq<QueryTerm>, a: ArchetypeView, j: nat, k: nat)
    requires
        j <= k <= terms.len(),
        terms_fit(acc, terms, a, k),
    ensures
        terms_fit(acc, terms, a, j),
    decreases k - j,
{
    if j < k {
        lemma_terms_fit_prefix(acc, terms, a, j, (k - 1) as nat);
    }
}

/// The abstract state of a [`QueryState`]: its terms, how many archetypes of the world
/// it has looked at, those that match, and the accesses to them.
pub struct QueryStateView {
    pub terms: Seq<QueryTerm>,
    pub generation: nat,
    pub archetypes: Seq<ArchetypeId>,
    pub access: AccessView,
}

/// The state after looking at archetype `a`, which it matches or not.
pub open spec fn after_archetype(v: QueryStateView, a: ArchetypeView) -> QueryStateView {
    if query_matches(v.terms, a.components) {
        QueryStateView {
            terms: v.terms,
            generation: v.generation + 1,
            archetypes: v.archetypes.push(a.id),
            access: terms_access(v.access, v.terms, a, v.terms.len()),
        }
    } else {
        QueryStateView { generation: v.generation + 1, ..v }
    }
}

/// Archetype `a` can be looked at: if it matches, its accesses fit.
pub open spec fn can_take(v: QueryStateView, a: ArchetypeView) -> bool {
    query_matches(v.terms, a.components) ==> terms_fit(v.access, v.terms, a, v.terms.len())
}

/// The state after looking at the archetypes of `archetypes` not seen yet, in order,
/// stopping before one whose accesses would not fit.
pub open spec fn collected(v: QueryStateView, archetypes: Seq<ArchetypeView>) -> QueryStateView
    decreases archetypes.len() - v.generation,
{
    if v.generation >= archetypes.len() {
        v
    } else if !can_take(v, archetypes[v.generation as int]) {
        v
    } else {
        collected(after_archetype(v, archetypes[v.generation as int]), archetypes)
    }
}

/// The state belongs to a world of archetypes `archetypes`: it looked at no more of
/// them than there are, and each archetype it lists was looked at and matches.
pub open spec fn tracks(v: QueryStateView, archetypes: Seq<ArchetypeView>) -> bool {
    &&& v.generation <= archetypes.len()
    &&& forall|k: int| 0 <= k < v.archetypes.len() ==> #[trigger] v.archetypes[k] < v.generation
        && query_matches(v.terms, archetypes[v.archetypes[k] as int].components)
}

/// Looking at more archetypes keeps the terms and keeps the state belonging to the
/// world.
pub proof fn lemma_collected(v: QueryStateView, archetypes: Seq<ArchetypeView>)
    requires
        tracks(v, archetypes),
        forall|i: int| 0 <= i < archetypes.len() ==> #[trigger] archetypes[i].id == i,
    ensures
        tracks(collected(v, archetypes), archetypes),
        collected(v, archetypes).terms == v.terms,
        v.generation <= collected(v, archetypes).generation,
    decreases archetypes.len() - v.generation,
{
    if v.generation < archetypes.len() && can_take(v, archetypes[v.generation as int]) {
        let next = after_archetype(v, archetypes[v.generation as int]);
        assert(tracks(next, archetypes)) by {
            assert forall|k: int| 0 <= k < next.archetypes.len() implies #[trigger] next.archetypes[k] < next.generation
                && query_matches(next.terms, archetypes[next.archetypes[k] as int].components) by {
                if k < v.archetypes.len() {
                    assert(next.archetypes[k] == v.archetypes[k]);
                }
            }
        }
        lemma_collected(next, archetypes);
    }
}

/// A query state stays valid while its world changes: the world's operations keep
/// every archetype with its components and only add new ones, so a state that belonged
/// to the world before an operation still belongs to it after.
pub proof fn lemma_tracks_across_changes(v: QueryStateView, before: WorldView, after: WorldView)
    requires
        tracks(v, before.archetypes),
        before.keeps_archetypes(after),
    ensures
        tracks(v, after.archetypes),
{
    assert forall|k: int| 0 <= k < v.archetypes.len() implies #[trigger] v.archetypes[k] < v.generation
        && query_matches(v.terms, after.archetypes[v.archetypes[k] as int].components) by {
        assert(after.archetypes[v.archetypes[k] as int].components == before.archetypes[v.archetypes[k] as int].components);
    }
}

/// The entities of the archetypes `ids`, archetype after archetype.
pub open spec fn entities_of(archetypes: Seq<ArchetypeView>, ids: Seq<ArchetypeId>) -> Seq<Entity>
    decreases ids.len(),
{
    if ids.len() == 0 {
        Seq::empty()
    } else {
        entities_of(archetypes, ids.drop_last()) + archetypes[ids.last() as int].entities
    }
}

/// The state of a query: its terms, the number of archetypes looked at (the world's
/// archetype generation when it last looked), the matching archetypes and their
/// accesses.
pub struct QueryState {
    terms: Vec<QueryTerm>,
    archetype_generation: u64,
    archetypes: Vec<ArchetypeId>,
    archetype_access: Access,
}

/// The index of the first `c` of `list`.
fn find_position(list: &Vec<ComponentId>, c: ComponentId) -> (res: Option<usize>)
    ensures
        match res {
            Some(i) => position_of(list@, c) == Some(i as int),
            None => position_of(list@, c) is None,
        },
{
    proof { lemma_position_of(list@, c); }
    let mut i: usize = 0;
    while i < list.len()
        invariant
            i <= list@.len(),
            forall|j: int| 0 <= j < i ==> list@[j] != c,
            position_of(list@, c) matches Some(p) ==> 0 <= p < list@.len() && list@[p] == c && forall|j: int| 0 <= j < p ==> list@[j] != c,
            position_of(list@, c) is None <==> !list@.contains(c),
        decreases list@.len() - i,
    {
        if list[i] == c {
            proof {
                assert(list@.contains(c));
                let p = position_of(list@, c)->0;
                assert(p == i as int);
            }
            return Some(i);
        }
        i = i + 1;
    }
    proof {
        if list@.contains(c) {
            let p = position_of(list@, c)->0;
            assert(list@[p] == c);
        }
    }
    None
}

impl QueryState {
    pub closed spec fn view(&self) -> QueryStateView {
        QueryStateView {
            terms: self.terms@,
            generation: self.archetype_generation as nat,
            archetypes: self.archetypes@,
            access: self.archetype_access@,
        }
    }
    /// Looks at archetype `id` of `registry`: if it satisfies every term, its reads and
    /// writes are recorded and it joins the matching archetypes.
    fn process_new_archetype(&mut self, registry: &ArchetypeRegistry, id: ArchetypeId)
        requires
            registry.wf(),
            id < registry.view().len(),
            can_take(old(self).view(), registry.view()[id as int]),
        ensures
            final(self).view() == (QueryStateView {
                generation: old(self).view().generation,
                ..after_archetype(old(self).view(), registry.view()[id as int])
            }),
    {
        proof { registry.lemma_columns_match_components(); }
        let archetype = registry.get(id);
        let ghost a = registry.view()[id as int];
        let ghost terms = self.terms@;
        let ghost acc0 = self.archetype_access@;
        let components = archetype.components();
        let matches = self.matches_components(components);
        if matches {
            let ids = archetype.components_archetype_ids();
            let mut k: usize = 0;
            while k < self.terms.len()
                invariant
                    terms == self.terms@,
                    components@ == a.components,
                    ids@ == a.component_archetype_ids,
                    ids@.len() == components@.len(),
                    query_matches(terms, a.components),
                    terms_fit(acc0, terms, a, terms.len()),
                    k <= terms.len(),
                    self.archetype_access@ == terms_access(acc0, terms, a, k as nat),
                    self.archetypes == old(self).archetypes,
                    self.archetype_generation == old(self).archetype_generation,
                decreases terms.len() - k,
            {
                proof {
                    lemma_terms_fit_prefix(acc0, terms, a, (k + 1) as nat, terms.len());
                    assert(term_matches(terms[k as int], a.components));
                    lemma_position_of(a.components, term_component(terms[k as int]));
                }
                match self.terms[k] {
                    QueryTerm::Read(c) => {
                        match find_position(components, c) {
                            Some(p) => {
                                let cid = ids[p];
                                self.archetype_access.add_read(cid);
                            },
                            None => {},
                        }
                    },
                    QueryTerm::Write(c) => {
                        match find_position(components, c) {
                            Some(p) => {
                                let cid = ids[p];
                                self.archetype_access.add_write(cid);
                            },
                            None => {},
                        }
                    },
                    _ => {},
                }
                k = k + 1;
            }
            self.archetypes.push(archetype.id());
        }
    }
    /// Whether an archetype made of `components` satisfies every term.
    fn matches_components(&self, components: &Vec<ComponentId>) -> (res: bool)
        ensures
            res == query_matches(self.terms@, components@),
    {
        let ghost terms = self.terms@;
        let mut matches = true;
        let mut i: usize = 0;
        while i < self.terms.len()
            invariant
                terms == self.terms@,
                i <= terms.len(),
                matches == forall|j: int| 0 <= j < i ==> #[trigger] term_matches(terms[j], components@),
            decreases terms.len() - i,
        {
            let t = self.terms[i];
            let found = match t {
                QueryTerm::Read(c) => find_position(components, c),
                QueryTerm::Write(c) => find_position(components, c),
                QueryTerm::With(c) => find_position(components, c),
                QueryTerm::Without(c) => find_position(components, c),
            };
            proof { lemma_position_of(components@, term_component(t)); }
            let ok = match t {
                QueryTerm::Without(_) => found.is_none(),
                _ => found.is_some(),
            };
            if !ok {
                matches = false;
            }
            i = i + 1;
            proof {
                assert(term_matches(terms[i - 1], components@) == ok);
                if matches {
                    assert forall|j: int| 0 <= j < i implies #[trigger] term_matches(terms[j], components@) by {
                    }
                }
            }
        }
        matches
    }

    /// Whether archetype `id` of `registry` can be looked at: if it matches, recording
    /// its reads and writes fits in the access.
    fn can_take_archetype(&self, registry: &ArchetypeRegistry, id: ArchetypeId) -> (res: bool)
        requires
            registry.wf(),
            id < registry.view().len(),
        ensures
            res == can_take(self.view(), registry.view()[id as int]),
    {
        proof { registry.lemma_columns_match_components(); }
        let archetype = registry.get(id);
        let ghost a = registry.view()[id as int];
        let ghost terms = self.terms@;
        let ghost acc0 = self.archetype_access@;
        let components = archetype.components();
        if !self.matches_components(components) {
            return true;
        }
        let ids = archetype.components_archetype_ids();
        let limit: usize = usize::MAX / 8;
        let mut reads_len = self.archetype_access.len();
        let mut k: usize = 0;
        while k < self.terms.len()
            invariant
                terms == self.terms@,
                acc0 == self.archetype_access@,
                a == registry.view()[id as int],
                components@ == a.components,
                ids@ == a.component_archetype_ids,
                ids@.len() == components@.len(),
                query_matches(terms, a.components),
                limit == max_bits(),
                k <= terms.len(),
                terms_fit(acc0, terms, a, k as nat),
                reads_len == terms_access(acc0, terms, a, k as nat).reads.len(),
                reads_len <= limit,
            decreases terms.len() - k,
        {
            proof {
                assert(term_matches(terms[k as int], a.components));
                lemma_position_of(a.components, term_component(terms[k as int]));
            }
            match self.terms[k] {
                QueryTerm::Read(c) => {
                    match find_position(components, c) {
                        Some(p) => {
                            let cid = ids[p];
                            if cid >= limit - reads_len {
                                proof {
                                    assert(!terms_fit(acc0, terms, a, (k + 1) as nat));
                                    if terms_fit(acc0, terms, a, terms.len()) {
                                        lemma_terms_fit_prefix(acc0, terms, a, (k + 1) as nat, terms.len());
                                    }
                                }
                                return false;
                            }
                            reads_len = reads_len + cid + 1;
                        },
                        None => {},
                    }
                },
                QueryTerm::Write(c) => {
                    match find_position(components, c) {
                        Some(p) => {
                            let cid = ids[p];
                            if cid >= limit - reads_len {
                                proof {
                                    assert(!terms_fit(acc0, terms, a, (k + 1) as nat));
                                    if terms_fit(acc0, terms, a, terms.len()) {
                                        lemma_terms_fit_prefix(acc0, terms, a, (k + 1) as nat, terms.len());
                                    }
                                }
                                return false;
                            }
                            reads_len = reads_len + cid + 1;
                        },
                        None => {},
                    }
                },
                _ => {},
            }
            k = k + 1;
        }
        true
    }
    /// A query of `terms` that has looked at the archetypes of `world`.
    pub fn new(terms: Vec<QueryTerm>, world: &World) -> (res: Self)
        requires
            world.wf(),
        ensures
            res.view() == collected(
                QueryStateView {
                    terms: terms@,
                    generation: 0,
                    archetypes: Seq::empty(),
                    access: AccessView { reads: Seq::empty(), writes: Seq::empty() },
                },
                world.view().archetypes,
            ),
            tracks(res.view(), world.view().archetypes),
    {
        let mut state = QueryState {
            terms,
            archetype_generation: 0,
            archetypes: Vec::new(),
            archetype_access: Access::default(),
        };
        state.collect_archetypes(world);
        state
    }

    /// The number of the world's archetypes looked at.
    pub fn generation(&self) -> (res: u64)
        ensures
            res == self.view().generation,
    {
        self.archetype_generation
    }

    /// The matching archetypes, in the order they were found.
    pub fn archetypes(&self) -> (res: &Vec<ArchetypeId>)
        ensures
            res@ == self.view().archetypes,
    {
        &self.archetypes
    }

    /// The reads and writes of the matching archetypes.
    pub fn archetype_access(&self) -> (res: &Access)
        ensures
            res@ == self.view().access,
    {
        &self.archetype_access
    }

    /// Looks at the archetypes that `world` registered since the last look, in order;
    /// whether it got through all of them (it stops before an archetype whose accesses
    /// would not fit).
    pub fn collect_archetypes(&mut self, world: &World) -> (complete: bool)
        requires
            world.wf(),
            tracks(old(self).view(), world.view().archetypes),
        ensures
            final(self).view() == collected(old(self).view(), world.view().archetypes),
            tracks(final(self).view(), world.view().archetypes),
            complete == (final(self).view().generation == world.view().archetypes.len()),
    {
        let registry = world.archetype_registry();
        proof { registry.lemma_columns_match_components(); }
        let ghost archetypes = world.view().archetypes;
        let generation = registry.generation();
        while self.archetype_generation < generation
            invariant
                registry.wf(),
                registry.view() == archetypes,
                archetypes == world.view().archetypes,
                generation == archetypes.len(),
                forall|i: int| 0 <= i < archetypes.len() ==> #[trigger] archetypes[i].id == i,
                tracks(self.view(), archetypes),
                self.view().terms == old(self).view().terms,
                collected(self.view(), archetypes) == collected(old(self).view(), archetypes),
            decreases generation - self.archetype_generation,
        {
            let id = self.archetype_generation as usize;
            assert(id as int == self.view().generation);
            if !self.can_take_archetype(registry, id) {
                proof {
                    assert(collected(self.view(), archetypes) == self.view());
                }
                return false;
            }
            let ghost before = self.view();
            self.process_new_archetype(registry, id);
            self.archetype_generation = self.archetype_generation + 1;
            proof {
                assert(self.view() == after_archetype(before, archetypes[id as int]));
                assert(tracks(self.view(), archetypes)) by {
                    let v = self.view();
                    assert forall|k: int| 0 <= k < v.archetypes.len() implies #[trigger] v.archetypes[k] < v.generation
                        && query_matches(v.terms, archetypes[v.archetypes[k] as int].components) by {
                        if k < before.archetypes.len() {
                            assert(v.archetypes[k] == before.archetypes[k]);
                        }
                    }
                }
            }
        }
        proof { lemma_collected(self.view(), archetypes); }
        true
    }

    /// Looks at the new archetypes of `world`, then lists the entities of the matching
    /// archetypes, archetype after archetype, in each in its order.
    pub fn entities(&mut self, world: &World) -> (res: Vec<Entity>)
        requires
            world.wf(),
            tracks(old(self).view(), world.view().archetypes),
        ensures
            final(self).view() == collected(old(self).view(), world.view().archetypes),
            tracks(final(self).view(), world.view().archetypes),
            res@ == entities_of(world.view().archetypes, final(self).view().archetypes),
    {
        let registry = world.archetype_registry();
        proof { registry.lemma_columns_match_components(); }
        self.collect_archetypes(world);
        let mut res: Vec<Entity> = Vec::new();
        let mut i: usize = 0;
        while i < self.archetypes.len()
            invariant
                registry.wf(),
                registry.view() == world.view().archetypes,
                tracks(self.view(), world.view().archetypes),
                i <= self.archetypes@.len(),
                res@ == entities_of(world.view().archetypes, self.archetypes@.take(i as int)),
            decreases self.archetypes@.len() - i,
        {
            let id = self.archetypes[i];
            assert(self.view().archetypes[i as int] == id);
            let entities = registry.get(id).entities();
            let mut j: usize = 0;
            let ghost start = res@;
            while j < entities.len()
                invariant
                    j <= entities@.len(),
                    res@ == start + entities@.take(j as int),
                decreases entities@.len() - j,
            {
                res.push(entities[j]);
                j = j + 1;
                assert(res@ =~= start + entities@.take(j as int));
            }
            assert(entities@.take(j as int) =~= entities@);
            assert(self.archetypes@.take(i + 1).drop_last() =~= self.archetypes@.take(i as int));
            i = i + 1;
        }
        assert(self.archetypes@.take(i as int) =~= self.archetypes@);
        res
    }

    /// Looks at the new archetypes of `world`; if the archetype of `entity` matches,
    /// the entity's value for each read or written term (`None` for the terms that only
    /// filter), else `None`.
    pub fn get<'w>(&mut self, world: &'w World, entity: Entity) -> (res: Option<Vec<Option<&'w Vec<u8>>>>)
        requires
            world.wf(),
            tracks(old(self).view(), world.view().archetypes),
            world.view().archetype_of(entity.id) is Some,
        ensures
            final(self).view() == collected(old(self).view(), world.view().archetypes),
            tracks(final(self).view(), world.view().archetypes),
            res is Some <==> final(self).view().archetypes.contains(world.view().archetype_of(entity.id)->0),
            res matches Some(values) ==> {
                &&& values@.len() == final(self).view().terms.len()
                &&& forall|k: int| 0 <= k < values@.len() ==> match final(self).view().terms[k] {
                    QueryTerm::Read(c) => #[trigger] values@[k] matches Some(b) && world.view().value_of(entity.id, c) == Some(b@),
                    QueryTerm::Write(c) => values@[k] matches Some(b) && world.view().value_of(entity.id, c) == Some(b@),
                    _ => values@[k] is None,
                }
            },
    {
        self.collect_archetypes(world);
        let archetype_id = match world.archetype_of(entity) {
            Some(a) => a,
            None => { return None; },
        };
        let mut found = false;
        let mut i: usize = 0;
        while i < self.archetypes.len()
            invariant
                i <= self.archetypes@.len(),
                found == exists|j: int| 0 <= j < i && self.archetypes@[j] == archetype_id,
            decreases self.archetypes@.len() - i,
        {
            if self.archetypes[i] == archetype_id {
                found = true;
            }
            i = i + 1;
        }
        if !found {
            return None;
        }
        proof {
            let j = choose|j: int| 0 <= j < self.archetypes@.len() && self.archetypes@[j] == archetype_id;
            assert(self.view().archetypes.contains(archetype_id));
        }
        proof {
            let j = choose|j: int| 0 <= j < self.archetypes@.len() && self.archetypes@[j] == archetype_id;
            assert(query_matches(self.view().terms, world.view().archetypes[self.view().archetypes[j] as int].components));
        }
        let mut values: Vec<Option<&'w Vec<u8>>> = Vec::new();
        let mut k: usize = 0;
        while k < self.terms.len()
            invariant
                world.wf(),
                k <= self.terms@.len(),
                values@.len() == k,
                world.view().archetype_of(entity.id) == Some(archetype_id),
                query_matches(self.terms@, world.view().archetypes[archetype_id as int].components),
                forall|l: int| 0 <= l < k ==> match self.terms@[l] {
                    QueryTerm::Read(c) => #[trigger] values@[l] matches Some(b) && world.view().value_of(entity.id, c) == Some(b@),
                    QueryTerm::Write(c) => values@[l] matches Some(b) && world.view().value_of(entity.id, c) == Some(b@),
                    _ => values@[l] is None,
                },
            decreases self.terms@.len() - k,
        {
            proof {
                assert(term_matches(self.terms@[k as int], world.view().archetypes[archetype_id as int].components));
            }
            let value = match self.terms[k] {
                QueryTerm::Read(c) => {
                    proof { world.lemma_located_values(entity.id, c); }
                    world.get_component(entity, c)
                },
                QueryTerm::Write(c) => {
                    proof { world.lemma_located_values(entity.id, c); }
                    world.get_component(entity, c)
                },
                _ => None,
            };
            values.push(value);
            k = k + 1;
        }
        Some(values)
    }
}

} // verus!
