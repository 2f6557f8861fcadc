//! The decisions of the executors that run a schedule: which sets' conditions to
//! evaluate, what their results mean, and, for the parallel executor, which systems
//! are ready, may start, and what a finished system unblocks. Running systems and
//! conditions, and waiting for them, stays with the caller.
use vstd::prelude::*;
use crate::ecs::access::{Access, AccessView, bit_at};
use crate::ecs::bits::{Bits, max_bits, ones_of, lemma_ones_of};
use crate::ecs::system::schedule::Schedule;

verus! {

/// The evaluated-set bits after evaluating the sets `sets`.
pub open spec fn evaluated_after(evaluated: Seq<bool>, sets: Seq<usize>) -> Seq<bool> {
    Seq::new(evaluated.len(), |j: int| evaluated[j] || sets.contains(j as usize))
}

/// The processed-system bits after the sets `sets` were evaluated with `results`:
/// every system of a set whose conditions did not all hold counts as processed.
pub open spec fn processed_after(
    processed: Seq<bool>,
    schedule: Schedule,
    sets: Seq<usize>,
    results: Seq<bool>,
) -> Seq<bool> {
    Seq::new(
        processed.len(),
        |i: int|
            processed[i] || exists|k: int|
                0 <= k < sets.len() && !results[k] && (#[trigger] schedule.set_has_system_bitset@[sets[k] as int])@[i],
    )
}

/// The sets that directly contain system `system_idx` and were not evaluated yet, in
/// increasing order: their conditions are the ones to evaluate before deciding whether
/// the system runs.
pub fn sets_to_evaluate(evaluated_sets: &Bits, schedule: &Schedule, system_idx: usize) -> (res: Vec<usize>)
    requires
        schedule.wf(),
        system_idx < schedule.systems@.len(),
        evaluated_sets@.len() == schedule.sets@.len(),
    ensures
        res@ == ones_of(schedule.system_is_in_set_bitset@[system_idx as int]@).filter(
            |j: usize| !evaluated_sets@[j as int],
        ),
        forall|k: int| 0 <= k < res@.len() ==> #[trigger] res@[k] < schedule.sets@.len(),
{
    let ones = schedule.system_is_in_set_bitset[system_idx].iter_ones();
    let ghost in_set = schedule.system_is_in_set_bitset@[system_idx as int]@;
    proof {
        lemma_ones_of(in_set);
    }
    let mut res: Vec<usize> = Vec::new();
    let mut k: usize = 0;
    while k < ones.len()
        invariant
            ones@ == ones_of(in_set),
            in_set.len() == evaluated_sets@.len(),
            forall|l: int| 0 <= l < ones@.len() ==> #[trigger] ones@[l] < in_set.len(),
            k <= ones.len(),
            res@ == ones@.subrange(0, k as int).filter(|j: usize| !evaluated_sets@[j as int]),
            forall|l: int| 0 <= l < res@.len() ==> #[trigger] res@[l] < in_set.len(),
        decreases ones.len() - k,
    {
        let j = ones[k];
        proof {
            assert(ones@.subrange(0, k + 1) =~= ones@.subrange(0, k as int).push(j));
            ones@.subrange(0, k as int).lemma_filter_push(j, |j: usize| !evaluated_sets@[j as int]);
        }
        if !evaluated_sets.get(j) {
            res.push(j);
        }
        k = k + 1;
    }
    assert(ones@.subrange(0, ones@.len() as int) =~= ones@);
    res
}

/// Records that the sets `sets` were evaluated, with `results[k]` telling whether
/// every condition of `sets[k]` held; the systems of a failing set count as processed.
/// Returns whether every set's conditions held.
pub fn apply_set_results(
    evaluated_sets: &mut Bits,
    processed_systems: &mut Bits,
    schedule: &Schedule,
    sets: &Vec<usize>,
    results: &Vec<bool>,
) -> (should_run: bool)
    requires
        schedule.wf(),
        old(evaluated_sets)@.len() == schedule.sets@.len(),
        old(processed_systems)@.len() == schedule.systems@.len(),
        forall|k: int| 0 <= k < sets@.len() ==> #[trigger] sets@[k] < schedule.sets@.len(),
        results@.len() == sets@.len(),
    ensures
        final(evaluated_sets)@ == evaluated_after(old(evaluated_sets)@, sets@),
        final(processed_systems)@ == processed_after(old(processed_systems)@, *schedule, sets@, results@),
        should_run == forall|k: int| 0 <= k < results@.len() ==> #[trigger] results@[k],
{
    let mut should_run = true;
    let mut k: usize = 0;
    while k < sets.len()
        invariant
            schedule.wf(),
            forall|l: int| 0 <= l < sets@.len() ==> #[trigger] sets@[l] < schedule.sets@.len(),
            results@.len() == sets@.len(),
            k <= sets.len(),
            evaluated_sets@ == evaluated_after(old(evaluated_sets)@, sets@.subrange(0, k as int)),
            processed_systems@ == processed_after(
                old(processed_systems)@,
                *schedule,
                sets@.subrange(0, k as int),
                results@.subrange(0, k as int),
            ),
            old(evaluated_sets)@.len() == schedule.sets@.len(),
            old(processed_systems)@.len() == schedule.systems@.len(),
            should_run == forall|l: int| 0 <= l < k ==> #[trigger] results@[l],
        decreases sets.len() - k,
    {
        let set_idx = sets[k];
        let ghost before_eval = evaluated_sets@;
        let ghost before_proc = processed_systems@;
        evaluated_sets.set(set_idx, true);
        if !results[k] {
            should_run = false;
            processed_systems.or_assign(&schedule.set_has_system_bitset[set_idx]);
        }
        proof {
            let sub = sets@.subrange(0, k + 1);
            let rsub = results@.subrange(0, k + 1);
            assert(sub =~= sets@.subrange(0, k as int).push(set_idx));
            assert(evaluated_sets@ =~= evaluated_after(old(evaluated_sets)@, sub)) by {
                assert forall|j: int| 0 <= j < evaluated_sets@.len() implies evaluated_sets@[j]
                    == (old(evaluated_sets)@[j] || sub.contains(j as usize)) by {
                    if sub.contains(j as usize) && j != set_idx {
                        let l = choose|l: int| 0 <= l < sub.len() && sub[l] == j as usize;
                        assert(sets@.subrange(0, k as int)[l] == j as usize);
                    }
                    if sets@.subrange(0, k as int).contains(j as usize) {
                        let l = choose|l: int| 0 <= l < k && sets@.subrange(0, k as int)[l] == j as usize;
                        assert(sub[l] == j as usize);
                    }
                    if j == set_idx {
                        assert(sub[k as int] == set_idx);
                    }
                }
            }
            assert(processed_systems@ =~= processed_after(old(processed_systems)@, *schedule, sub, rsub)) by {
                assert forall|i: int| 0 <= i < processed_systems@.len() implies processed_systems@[i]
                    == processed_after(old(processed_systems)@, *schedule, sub, rsub)[i] by {
                    let now = exists|l: int|
                        0 <= l < sub.len() && !rsub[l] && (#[trigger] schedule.set_has_system_bitset@[sub[l] as int])@[i];
                    let before = exists|l: int|
                        0 <= l < k && !results@.subrange(0, k as int)[l]
                            && (#[trigger] schedule.set_has_system_bitset@[sets@.subrange(0, k as int)[l] as int])@[i];
                    if before {
                        let l = choose|l: int|
                            0 <= l < k && !results@.subrange(0, k as int)[l]
                                && (#[trigger] schedule.set_has_system_bitset@[sets@.subrange(0, k as int)[l] as int])@[i];
                        assert(sub[l] == sets@.subrange(0, k as int)[l] && rsub[l] == results@.subrange(0, k as int)[l]);
                    }
                    if now {
                        let l = choose|l: int|
                            0 <= l < sub.len() && !rsub[l] && (#[trigger] schedule.set_has_system_bitset@[sub[l] as int])@[i];
                        if l < k {
                            assert(sub[l] == sets@.subrange(0, k as int)[l] && rsub[l] == results@.subrange(0, k as int)[l]);
                        }
                    }
                    if !results@[k as int] {
                        assert(sub[k as int] == set_idx && !rsub[k as int]);
                    }
                }
            }
        }
        k = k + 1;
    }
    assert(sets@.subrange(0, sets@.len() as int) =~= sets@);
    assert(results@.subrange(0, results@.len() as int) =~= results@);
    should_run
}

/// Records the result of the conditions of system `system_idx`: when they do not all
/// hold the system counts as processed. Returns whether they all hold.
pub fn apply_system_result(processed_systems: &mut Bits, system_idx: usize, conditions_hold: bool) -> (should_run: bool)
    requires
        system_idx < old(processed_systems)@.len(),
    ensures
        should_run == conditions_hold,
        final(processed_systems)@ == if conditions_hold {
            old(processed_systems)@
        } else {
            old(processed_systems)@.update(system_idx as int, true)
        },
{
    if !conditions_hold {
        processed_systems.set(system_idx, true);
        return false;
    }
    true
}

/// Runs the systems of a schedule one at a time, in order.
pub struct SequentialExecutor {
    /// Systems that were evaluated and/or run.
    processed_systems: Bits,
    /// System sets that were evaluated for execution.
    evaluated_sets: Bits,
}

impl SequentialExecutor {
    /// The processed-system bits.
    pub closed spec fn processed(&self) -> Seq<bool> {
        self.processed_systems@
    }

    /// The evaluated-set bits.
    pub closed spec fn evaluated(&self) -> Seq<bool> {
        self.evaluated_sets@
    }
}

impl Default for SequentialExecutor {
    fn default() -> (res: Self)
        ensures
            res.processed().len() == 0,
            res.evaluated().len() == 0,
    {
        SequentialExecutor { processed_systems: Bits::new(), evaluated_sets: Bits::new() }
    }
}

impl SequentialExecutor {
    /// Prepares a run of `schedule`: nothing processed, no set evaluated.
    pub fn initialize(&mut self, schedule: &Schedule)
        requires
            schedule.wf(),
        ensures
            final(self).processed() == Seq::new(schedule.systems@.len(), |i: int| false),
            final(self).evaluated() == Seq::new(schedule.sets@.len(), |i: int| false),
    {
        self.processed_systems.resize(schedule.systems.len(), false);
        self.evaluated_sets.resize(schedule.sets.len(), false);
        self.processed_systems.fill(false);
        self.evaluated_sets.fill(false);
    }

    /// Starts on system `system_idx`: false when it was processed already, otherwise
    /// it becomes processed and the caller goes on to decide whether it runs.
    pub fn begin_system(&mut self, system_idx: usize) -> (res: bool)
        requires
            system_idx < old(self).processed().len(),
        ensures
            res == !old(self).processed()[system_idx as int],
            final(self).processed() == old(self).processed().update(system_idx as int, true),
            final(self).evaluated() == old(self).evaluated(),
    {
        if self.processed_systems.get(system_idx) {
            assert(old(self).processed().update(system_idx as int, true) =~= old(self).processed());
            return false;
        }
        self.processed_systems.set(system_idx, true);
        true
    }

    /// The sets whose conditions to evaluate before system `system_idx`.
    pub fn sets_to_evaluate(&self, schedule: &Schedule, system_idx: usize) -> (res: Vec<usize>)
        requires
            schedule.wf(),
            system_idx < schedule.systems@.len(),
            self.evaluated().len() == schedule.sets@.len(),
        ensures
            res@ == ones_of(schedule.system_is_in_set_bitset@[system_idx as int]@).filter(
                |j: usize| !self.evaluated()[j as int],
            ),
            forall|k: int| 0 <= k < res@.len() ==> #[trigger] res@[k] < schedule.sets@.len(),
    {
        sets_to_evaluate(&self.evaluated_sets, schedule, system_idx)
    }

    /// Records the results of the sets' conditions; whether they all held.
    pub fn apply_set_results(&mut self, schedule: &Schedule, sets: &Vec<usize>, results: &Vec<bool>) -> (should_run: bool)
        requires
            schedule.wf(),
            old(self).evaluated().len() == schedule.sets@.len(),
            old(self).processed().len() == schedule.systems@.len(),
            forall|k: int| 0 <= k < sets@.len() ==> #[trigger] sets@[k] < schedule.sets@.len(),
            results@.len() == sets@.len(),
        ensures
            final(self).evaluated() == evaluated_after(old(self).evaluated(), sets@),
            final(self).processed() == processed_after(old(self).processed(), *schedule, sets@, results@),
            should_run == forall|k: int| 0 <= k < results@.len() ==> #[trigger] results@[k],
    {
        apply_set_results(&mut self.evaluated_sets, &mut self.processed_systems, schedule, sets, results)
    }

    /// Records the result of the system's own conditions; whether it runs.
    pub fn apply_system_result(&mut self, system_idx: usize, conditions_hold: bool) -> (should_run: bool)
        requires
            system_idx < old(self).processed().len(),
        ensures
            should_run == conditions_hold,
            final(self).evaluated() == old(self).evaluated(),
            final(self).processed() == if conditions_hold {
                old(self).processed()
            } else {
                old(self).processed().update(system_idx as int, true)
            },
    {
        apply_system_result(&mut self.processed_systems, system_idx, conditions_hold)
    }
}

/// What the parallel executor keeps about one system of the schedule.
pub struct SystemData {
    /// Its number of dependencies.
    pub dependencies_count: usize,
    /// Its dependencies that have not been processed yet.
    pub dependencies_remaining: usize,
    /// The positions of the systems that depend on it.
    pub dependents: Vec<usize>,
    /// The archetypes that it and its conditions read and write.
    pub archetype_access: Access,
}

/// `access` united, in order, with each of `others`.
pub open spec fn union_all(access: AccessView, others: Seq<AccessView>) -> AccessView
    decreases others.len(),
{
    if others.len() == 0 {
        access
    } else {
        union_all(access, others.drop_last()).after_union(others.last())
    }
}

/// The views of `accesses`.
pub open spec fn views(accesses: Seq<Access>) -> Seq<AccessView> {
    accesses.map_values(|a: Access| a@)
}

/// `access` united with the condition accesses of each set of `sets`, in order.
pub open spec fn union_sets(access: AccessView, set_conditions: Seq<Vec<Access>>, sets: Seq<usize>) -> AccessView
    decreases sets.len(),
{
    if sets.len() == 0 {
        access
    } else {
        union_all(
            union_sets(access, set_conditions, sets.drop_last()),
            views(set_conditions[sets.last() as int]@),
        )
    }
}

/// The access of system `i` for a run: its own, then those of the conditions of the
/// sets that contain it (in set order), then those of its own conditions.
pub open spec fn run_access(
    schedule: Schedule,
    system_accesses: Seq<Access>,
    set_conditions: Seq<Vec<Access>>,
    system_conditions: Seq<Vec<Access>>,
    i: int,
) -> AccessView {
    union_all(
        union_sets(system_accesses[i]@, set_conditions, ones_of(schedule.system_is_in_set_bitset@[i]@)),
        views(system_conditions[i]@),
    )
}

/// Runs the systems of a schedule at the same time where their dependencies and
/// archetype accesses allow. The caller runs the systems and reports their completion.
pub struct ParallelExecutor {
    system_datas: Vec<SystemData>,
    /// Systems that are ready to be processed (not waiting for any dependency).
    ready_systems: Bits,
    processed_systems: Bits,
    evaluated_sets: Bits,
    running_systems: Bits,
    current_archetype_access: Access,
    /// The systems already marked as processed (their dependents were told).
    marked: Ghost<Set<int>>,
}

impl ParallelExecutor {
    /// The per-system data.
    pub closed spec fn datas(&self) -> Seq<SystemData> {
        self.system_datas@
    }

    pub closed spec fn ready(&self) -> Seq<bool> {
        self.ready_systems@
    }

    pub closed spec fn processed(&self) -> Seq<bool> {
        self.processed_systems@
    }

    pub closed spec fn evaluated(&self) -> Seq<bool> {
        self.evaluated_sets@
    }

    pub closed spec fn running(&self) -> Seq<bool> {
        self.running_systems@
    }

    /// The union of the accesses of the running systems.
    pub closed spec fn current_access(&self) -> AccessView {
        self.current_archetype_access@
    }

    /// No system has been marked as processed and none is running: a run may start.
    pub closed spec fn is_fresh(&self) -> bool {
        &&& self.marked@.is_empty()
        &&& forall|i: int| 0 <= i < self.running_systems@.len() ==> !#[trigger] self.running_systems@[i]
    }

    /// The executor's invariant: its bookkeeping agrees, and the current access holds
    /// the access of every running system.
    pub closed spec fn wf(&self) -> bool {
        &&& self.bookkeeping_wf()
        &&& self.covers_running()
    }

    /// The current access holds the access of every running system.
    pub closed spec fn covers_running(&self) -> bool {
        forall|i: int| 0 <= i < self.system_datas@.len() && #[trigger] self.running_systems@[i]
            ==> covers(self.current_archetype_access@, self.system_datas@[i].archetype_access@)
    }

    /// The bits, the dependency counts and the marked systems agree.
    pub closed spec fn bookkeeping_wf(&self) -> bool {
        let n = self.system_datas@.len();
        &&& n <= max_bits()
        &&& self.ready_systems@.len() == n
        &&& self.processed_systems@.len() == n
        &&& self.running_systems@.len() == n
        &&& forall|i: int| 0 <= i < n ==> (#[trigger] self.system_datas@[i]).dependents@.no_duplicates()
        &&& forall|i: int, k: int|
            0 <= i < n && 0 <= k < self.system_datas@[i].dependents@.len()
                ==> #[trigger] self.system_datas@[i].dependents@[k] < n
        &&& forall|d: int|
            0 <= d < n ==> claims_of(self.system_datas@, self.marked@, d).len() <= (#[trigger] self.system_datas@[d]).dependencies_remaining
        &&& forall|i: int| #[trigger] self.marked@.contains(i) ==> 0 <= i < n && self.processed_systems@[i]
        &&& forall|i: int|
            0 <= i < n && #[trigger] self.ready_systems@[i] ==> !self.marked@.contains(i) && !self.running_systems@[i]
                && self.system_datas@[i].dependencies_remaining == 0
        &&& forall|i: int|
            0 <= i < n && #[trigger] self.running_systems@[i] ==> !self.marked@.contains(i)
                && self.system_datas@[i].dependencies_remaining == 0
        &&& self.marked@.is_empty() ==> forall|i: int|
            0 <= i < n ==> (#[trigger] self.system_datas@[i]).dependencies_remaining == self.system_datas@[i].dependencies_count
    }
}

/// `big` holds every read and every write of `small`.
pub open spec fn covers(big: AccessView, small: AccessView) -> bool {
    &&& forall|i: int| #[trigger] bit_at(small.reads, i) ==> bit_at(big.reads, i)
    &&& forall|i: int| #[trigger] bit_at(small.writes, i) ==> bit_at(big.writes, i)
}

/// The union of accesses, starting from any access, holds each of them.
proof fn lemma_union_all_covers(start: AccessView, others: Seq<AccessView>)
    ensures
        covers(union_all(start, others), start),
        forall|k: int| 0 <= k < others.len() ==> covers(union_all(start, others), #[trigger] others[k]),
    decreases others.len(),
{
    if others.len() > 0 {
        let rest = others.drop_last();
        lemma_union_all_covers(start, rest);
        let prev = union_all(start, rest);
        let next = union_all(start, others);
        assert(covers(next, prev));
        assert(covers(next, others.last()));
        assert forall|k: int| 0 <= k < others.len() implies covers(next, #[trigger] others[k]) by {
            if k < rest.len() {
                assert(rest[k] == others[k]);
                assert(covers(prev, rest[k]));
                assert forall|i: int| #[trigger] bit_at(others[k].reads, i) implies bit_at(next.reads, i) by {
                    assert(bit_at(prev.reads, i));
                }
                assert forall|i: int| #[trigger] bit_at(others[k].writes, i) implies bit_at(next.writes, i) by {
                    assert(bit_at(prev.writes, i));
                }
            }
        }
        assert forall|i: int| #[trigger] bit_at(start.reads, i) implies bit_at(next.reads, i) by {
            assert(bit_at(prev.reads, i));
        }
        assert forall|i: int| #[trigger] bit_at(start.writes, i) implies bit_at(next.writes, i) by {
            assert(bit_at(prev.writes, i));
        }
    }
}

/// The systems not yet marked as processed that list `d` among their dependents: each
/// owes `d` one decrement of its remaining dependencies.
pub open spec fn claims_of(datas: Seq<SystemData>, marked: Set<int>, d: int) -> Set<int> {
    Set::new(
        |i: int| 0 <= i < datas.len() && !marked.contains(i) && datas[i].dependents@.contains(d as usize),
    )
}

/// Marking `s` removes its claim on each of its dependents.
proof fn lemma_claims_after_mark(datas: Seq<SystemData>, marked: Set<int>, s: int, d: int)
    requires
        0 <= s < datas.len(),
        !marked.contains(s),
    ensures
        claims_of(datas, marked.insert(s), d).finite(),
        claims_of(datas, marked, d).finite(),
        claims_of(datas, marked.insert(s), d).len() + (if datas[s].dependents@.contains(d as usize) { 1int } else { 0int })
            == claims_of(datas, marked, d).len(),
{
    let before = claims_of(datas, marked, d);
    let after = claims_of(datas, marked.insert(s), d);
    lemma_positions_finite(before, datas.len() as int);
    lemma_positions_finite(after, datas.len() as int);
    if datas[s].dependents@.contains(d as usize) {
        assert(after =~= before.remove(s));
    } else {
        assert(after =~= before);
    }
}

/// Moving the split point of `s` past `s[k - 1] == d`, which occurs once.
proof fn lemma_split_contains(s: Seq<usize>, k: int, d: usize)
    requires
        0 < k <= s.len(),
        s[k - 1] == d,
    ensures
        s.subrange(0, k).contains(d),
        forall|x: usize| x != d ==> (s.subrange(0, k).contains(x) <==> s.subrange(0, k - 1).contains(x)),
        forall|x: usize| x != d ==> (s.subrange(k - 1, s.len() as int).contains(x) <==> s.subrange(k, s.len() as int).contains(x)),
{
    assert(s.subrange(0, k)[k - 1] == d);
    assert(s.subrange(0, k) =~= s.subrange(0, k - 1).push(d));
    assert(s.subrange(k - 1, s.len() as int) =~= seq![d] + s.subrange(k, s.len() as int));
    assert forall|x: usize| x != d implies (s.subrange(0, k).contains(x) <==> s.subrange(0, k - 1).contains(x)) by {
        if s.subrange(0, k).contains(x) {
            let i = choose|i: int| 0 <= i < k && #[trigger] s.subrange(0, k)[i] == x;
            assert(s.subrange(0, k - 1)[i] == x);
        }
        if s.subrange(0, k - 1).contains(x) {
            let i = choose|i: int| 0 <= i < k - 1 && #[trigger] s.subrange(0, k - 1)[i] == x;
            assert(s.subrange(0, k)[i] == x);
        }
    }
    assert forall|x: usize| x != d implies (s.subrange(k - 1, s.len() as int).contains(x) <==> s.subrange(k, s.len() as int).contains(x)) by {
        let tail = s.subrange(k, s.len() as int);
        let whole = s.subrange(k - 1, s.len() as int);
        if whole.contains(x) {
            let i = choose|i: int| 0 <= i < whole.len() && whole[i] == x;
            assert(i > 0);
            assert(tail[i - 1] == x);
        }
        if tail.contains(x) {
            let i = choose|i: int| 0 <= i < tail.len() && tail[i] == x;
            assert(whole[i + 1] == x);
        }
    }
}

/// The positions `0 .. n` form a finite set of `n` elements; a set of positions below
/// `n` is finite and no larger.
proof fn lemma_positions_finite(s: Set<int>, n: int)
    requires
        0 <= n,
        forall|i: int| #[trigger] s.contains(i) ==> 0 <= i < n,
    ensures
        s.finite(),
        s.len() <= n,
{
    let range = vstd::set_lib::set_int_range(0, n);
    vstd::set_lib::lemma_int_range(0, n);
    assert(s.subset_of(range));
    vstd::set_lib::lemma_len_subset(s, range);
}

impl Default for ParallelExecutor {
    fn default() -> (res: Self)
        ensures
            res.wf(),
            res.is_fresh(),
            res.datas().len() == 0,
    {
        let res = ParallelExecutor {
            system_datas: Vec::new(),
            ready_systems: Bits::new(),
            processed_systems: Bits::new(),
            evaluated_sets: Bits::new(),
            running_systems: Bits::new(),
            current_archetype_access: Access::default(),
            marked: Ghost(Set::empty()),
        };
        res
    }
}

impl ParallelExecutor {
    /// Prepares a run of `schedule`. `system_accesses[i]` is the access of system `i`,
    /// `set_conditions[j]` those of the conditions of set `j` and `system_conditions[i]`
    /// those of the conditions of system `i`; each system's run access unites them.
    pub fn initialize(
        &mut self,
        schedule: &Schedule,
        system_accesses: Vec<Access>,
        set_conditions: Vec<Vec<Access>>,
        system_conditions: Vec<Vec<Access>>,
    )
        requires
            schedule.wf(),
            system_accesses@.len() == schedule.systems@.len(),
            set_conditions@.len() == schedule.sets@.len(),
            system_conditions@.len() == schedule.systems@.len(),
        ensures
            final(self).wf(),
            final(self).is_fresh(),
            final(self).datas().len() == schedule.systems@.len(),
            final(self).ready() == Seq::new(schedule.systems@.len(), |i: int| false),
            final(self).processed() == Seq::new(schedule.systems@.len(), |i: int| false),
            final(self).running() == Seq::new(schedule.systems@.len(), |i: int| false),
            final(self).evaluated() == Seq::new(schedule.sets@.len(), |i: int| false),
            final(self).current_access() == old(self).current_access(),
            forall|i: int| 0 <= i < schedule.systems@.len() ==> {
                let data = #[trigger] final(self).datas()[i];
                &&& data.dependencies_count == schedule.systems_dependencies@[i].0
                &&& data.dependencies_remaining == schedule.systems_dependencies@[i].0
                &&& data.dependents@ == schedule.systems_dependencies@[i].1@
                &&& data.archetype_access@ == run_access(*schedule, system_accesses@, set_conditions@, system_conditions@, i)
            },
    {
        self.system_datas.clear();
        self.processed_systems.fill(false);
        self.ready_systems.fill(false);
        self.evaluated_sets.fill(false);
        self.running_systems.fill(false);
        let n = schedule.systems.len();
        self.processed_systems.resize(n, false);
        self.ready_systems.resize(n, false);
        self.running_systems.resize(n, false);
        self.evaluated_sets.resize(schedule.sets.len(), false);
        self.marked = Ghost(Set::empty());
        let mut system_accesses = system_accesses;
        let ghost accesses = system_accesses@;
        let mut i: usize = 0;
        while i < n
            invariant
                schedule.wf(),
                n == schedule.systems@.len(),
                accesses.len() == n,
                system_accesses@.len() == n,
                forall|k: int| i <= k < n ==> system_accesses@[k] == accesses[k],
                set_conditions@.len() == schedule.sets@.len(),
                system_conditions@.len() == n,
                i <= n,
                self.system_datas@.len() == i,
                self.marked@.is_empty(),
                self.processed_systems@ == Seq::new(n as nat, |k: int| false),
                self.ready_systems@ == Seq::new(n as nat, |k: int| false),
                self.running_systems@ == Seq::new(n as nat, |k: int| false),
                self.evaluated_sets@ == Seq::new(schedule.sets@.len(), |k: int| false),
                self.current_archetype_access == old(self).current_archetype_access,
                forall|k: int| 0 <= k < i ==> {
                    let data = #[trigger] self.system_datas@[k];
                    &&& data.dependencies_count == schedule.systems_dependencies@[k].0
                    &&& data.dependencies_remaining == schedule.systems_dependencies@[k].0
                    &&& data.dependents@ == schedule.systems_dependencies@[k].1@
                    &&& data.archetype_access@ == run_access(*schedule, accesses, set_conditions@, system_conditions@, k)
                },
            decreases n - i,
        {
            let mut archetype_access = Access::default();
            std::mem::swap(&mut archetype_access, &mut system_accesses[i]);
            let ones = schedule.system_is_in_set_bitset[i].iter_ones();
            let ghost in_set = schedule.system_is_in_set_bitset@[i as int]@;
            proof {
                lemma_ones_of(in_set);
            }
            let mut k: usize = 0;
            assert(ones@.subrange(0, 0) =~= Seq::<usize>::empty());
            while k < ones.len()
                invariant
                    schedule.wf(),
                    i < n,
                    ones@ == ones_of(in_set),
                    in_set == schedule.system_is_in_set_bitset@[i as int]@,
                    in_set.len() == schedule.sets@.len(),
                    forall|l: int| 0 <= l < ones@.len() ==> #[trigger] ones@[l] < in_set.len(),
                    set_conditions@.len() == schedule.sets@.len(),
                    self.evaluated_sets@ == Seq::new(schedule.sets@.len(), |k: int| false),
                    k <= ones.len(),
                    archetype_access@ == union_sets(accesses[i as int]@, set_conditions@, ones@.subrange(0, k as int)),
                decreases ones.len() - k,
            {
                let set_idx = ones[k];
                if !self.evaluated_sets.get(set_idx) {
                    let conditions = &set_conditions[set_idx];
                    let ghost start = archetype_access@;
                    let mut c: usize = 0;
                    while c < conditions.len()
                        invariant
                            c <= conditions.len(),
                            archetype_access@ == union_all(start, views(conditions@.subrange(0, c as int))),
                        decreases conditions.len() - c,
                    {
                        archetype_access.union(&conditions[c]);
                        proof {
                            assert(views(conditions@.subrange(0, c + 1)).drop_last() =~= views(conditions@.subrange(0, c as int)));
                        }
                        c = c + 1;
                    }
                    assert(conditions@.subrange(0, conditions@.len() as int) =~= conditions@);
                }
                proof {
                    assert(ones@.subrange(0, k + 1).drop_last() =~= ones@.subrange(0, k as int));
                }
                k = k + 1;
            }
            assert(ones@.subrange(0, ones@.len() as int) =~= ones@);
            let conditions = &system_conditions[i];
            let ghost start = archetype_access@;
            let mut c: usize = 0;
            while c < conditions.len()
                invariant
                    c <= conditions.len(),
                    archetype_access@ == union_all(start, views(conditions@.subrange(0, c as int))),
                decreases conditions.len() - c,
            {
                archetype_access.union(&conditions[c]);
                proof {
                    assert(views(conditions@.subrange(0, c + 1)).drop_last() =~= views(conditions@.subrange(0, c as int)));
                }
                c = c + 1;
            }
            assert(conditions@.subrange(0, conditions@.len() as int) =~= conditions@);
            let dependencies_count = schedule.systems_dependencies[i].0;
            let dependents = schedule.systems_dependencies[i].1.clone();
            self.system_datas.push(SystemData {
                dependencies_count,
                dependencies_remaining: dependencies_count,
                dependents,
                archetype_access,
            });
            i = i + 1;
        }
        proof {
            assert forall|d: int| 0 <= d < n implies claims_of(self.system_datas@, self.marked@, d).len() <= (#[trigger] self.system_datas@[d]).dependencies_remaining by {
                assert(claims_of(self.system_datas@, self.marked@, d) =~= schedule.dependents_of(d));
            }
        }
    }
}

impl ParallelExecutor {
    /// Marks the systems without dependency as ready; a run starts with this.
    pub fn begin_run(&mut self)
        requires
            old(self).wf(),
            old(self).is_fresh(),
        ensures
            final(self).wf(),
            final(self).datas() == old(self).datas(),
            final(self).ready() == Seq::new(
                old(self).ready().len(),
                |i: int| old(self).ready()[i] || old(self).datas()[i].dependencies_count == 0,
            ),
            final(self).processed() == old(self).processed(),
            final(self).running() == old(self).running(),
            final(self).evaluated() == old(self).evaluated(),
            final(self).current_access() == old(self).current_access(),
    {
        let mut i: usize = 0;
        while i < self.system_datas.len()
            invariant
                self.wf(),
                self.is_fresh(),
                self.system_datas == old(self).system_datas,
                self.processed_systems == old(self).processed_systems,
                self.running_systems == old(self).running_systems,
                self.evaluated_sets == old(self).evaluated_sets,
                self.current_archetype_access == old(self).current_archetype_access,
                self.marked == old(self).marked,
                i <= self.system_datas@.len(),
                self.ready_systems@ == Seq::new(
                    old(self).ready_systems@.len(),
                    |k: int| old(self).ready_systems@[k] || (k < i && old(self).system_datas@[k].dependencies_count == 0),
                ),
            decreases self.system_datas.len() - i,
        {
            if self.system_datas[i].dependencies_count == 0 {
                self.ready_systems.set(i, true);
            }
            i = i + 1;
            assert(self.ready_systems@ =~= Seq::new(
                old(self).ready_systems@.len(),
                |k: int| old(self).ready_systems@[k] || (k < i && old(self).system_datas@[k].dependencies_count == 0),
            ));
        }
        assert(self.ready_systems@ =~= Seq::new(
            old(self).ready_systems@.len(),
            |k: int| old(self).ready_systems@[k] || old(self).system_datas@[k].dependencies_count == 0,
        ));
    }

    /// Whether every system was processed: the run is over.
    pub fn is_finished(&self) -> (res: bool)
        ensures
            res == forall|i: int| 0 <= i < self.processed().len() ==> #[trigger] self.processed()[i],
    {
        let res = self.processed_systems.all();
        assert(res == forall|i: int| 0 <= i < self.processed().len() ==> #[trigger] self.processed()[i]) by {
            if res {
                assert forall|i: int| 0 <= i < self.processed().len() implies #[trigger] self.processed()[i] by {
                    assert(self.processed_systems@[i]);
                }
            } else {
                let i = choose|i: int| 0 <= i < self.processed_systems@.len() && !#[trigger] self.processed_systems@[i];
                assert(!self.processed()[i]);
            }
        }
        res
    }

    /// The systems that are ready, in increasing order.
    pub fn ready_systems(&self) -> (res: Vec<usize>)
        ensures
            res@ == ones_of(self.ready()),
    {
        self.ready_systems.iter_ones()
    }

    /// Whether system `system_idx` may start now: its access is disjoint from that of
    /// the running systems.
    pub fn can_start(&self, system_idx: usize) -> (res: bool)
        requires
            system_idx < self.datas().len(),
        ensures
            res == self.datas()[system_idx as int].archetype_access@.is_disjoint(self.current_access()),
    {
        self.system_datas[system_idx].archetype_access.is_disjoint(&self.current_archetype_access)
    }

    /// The sets whose conditions to evaluate before system `system_idx`.
    pub fn sets_to_evaluate(&self, schedule: &Schedule, system_idx: usize) -> (res: Vec<usize>)
        requires
            schedule.wf(),
            system_idx < schedule.systems@.len(),
            self.evaluated().len() == schedule.sets@.len(),
        ensures
            res@ == ones_of(schedule.system_is_in_set_bitset@[system_idx as int]@).filter(
                |j: usize| !self.evaluated()[j as int],
            ),
            forall|k: int| 0 <= k < res@.len() ==> #[trigger] res@[k] < schedule.sets@.len(),
    {
        sets_to_evaluate(&self.evaluated_sets, schedule, system_idx)
    }

    /// Records the results of the sets' conditions; whether they all held.
    pub fn apply_set_results(&mut self, schedule: &Schedule, sets: &Vec<usize>, results: &Vec<bool>) -> (should_run: bool)
        requires
            old(self).wf(),
            schedule.wf(),
            old(self).evaluated().len() == schedule.sets@.len(),
            old(self).processed().len() == schedule.systems@.len(),
            forall|k: int| 0 <= k < sets@.len() ==> #[trigger] sets@[k] < schedule.sets@.len(),
            results@.len() == sets@.len(),
        ensures
            final(self).wf(),
            final(self).datas() == old(self).datas(),
            final(self).ready() == old(self).ready(),
            final(self).running() == old(self).running(),
            final(self).current_access() == old(self).current_access(),
            final(self).evaluated() == evaluated_after(old(self).evaluated(), sets@),
            final(self).processed() == processed_after(old(self).processed(), *schedule, sets@, results@),
            should_run == forall|k: int| 0 <= k < results@.len() ==> #[trigger] results@[k],
    {
        let should_run = apply_set_results(&mut self.evaluated_sets, &mut self.processed_systems, schedule, sets, results);
        proof {
            assert forall|i: int| #[trigger] self.marked@.contains(i) implies 0 <= i < self.system_datas@.len() && self.processed_systems@[i] by {
                assert(old(self).processed_systems@[i]);
            }
        }
        should_run
    }

    /// Records the result of the system's own conditions; whether it runs.
    pub fn apply_system_result(&mut self, system_idx: usize, conditions_hold: bool) -> (should_run: bool)
        requires
            old(self).wf(),
            system_idx < old(self).processed().len(),
        ensures
            final(self).wf(),
            final(self).datas() == old(self).datas(),
            final(self).ready() == old(self).ready(),
            final(self).running() == old(self).running(),
            final(self).evaluated() == old(self).evaluated(),
            final(self).current_access() == old(self).current_access(),
            should_run == conditions_hold,
            final(self).processed() == if conditions_hold {
                old(self).processed()
            } else {
                old(self).processed().update(system_idx as int, true)
            },
    {
        apply_system_result(&mut self.processed_systems, system_idx, conditions_hold)
    }

    /// Marks system `system_idx` as processed and tells its dependents: each has one
    /// dependency less, and one left with none that is not processed becomes ready.
    fn mark_system_as_processed(&mut self, system_idx: usize)
        requires
            old(self).wf(),
            system_idx < old(self).datas().len(),
            !old(self).marked@.contains(system_idx as int),
            !old(self).ready()[system_idx as int],
        ensures
            final(self).wf(),
            final(self).datas().len() == old(self).datas().len(),
            final(self).marked@ == old(self).marked@.insert(system_idx as int),
            final(self).running() == old(self).running().update(system_idx as int, false),
            final(self).processed() == old(self).processed().update(system_idx as int, true),
            final(self).evaluated() == old(self).evaluated(),
            final(self).current_access() == old(self).current_access(),
            forall|i: int| 0 <= i < old(self).datas().len() ==> {
                let before = old(self).datas()[i];
                let after = #[trigger] final(self).datas()[i];
                &&& after.dependencies_count == before.dependencies_count
                &&& after.dependents == before.dependents
                &&& after.archetype_access == before.archetype_access
                &&& after.dependencies_remaining == if old(self).datas()[system_idx as int].dependents@.contains(i as usize) {
                    (before.dependencies_remaining - 1) as usize
                } else {
                    before.dependencies_remaining
                }
            },
            forall|i: int| 0 <= i < old(self).datas().len() ==> #[trigger] final(self).ready()[i] == (old(self).ready()[i]
                || (old(self).datas()[system_idx as int].dependents@.contains(i as usize) && old(self).datas()[i].dependencies_remaining == 1
                    && !final(self).processed()[i])),
    {
        let n = self.system_datas.len();
        let ghost old_marked = self.marked@;
        let ghost datas0 = self.system_datas@;
        let ghost ready0 = self.ready_systems@;
        self.running_systems.set(system_idx, false);
        self.processed_systems.set(system_idx, true);
        self.marked = Ghost(self.marked@.insert(system_idx as int));
        let dependents = self.system_datas[system_idx].dependents.clone();
        proof {
            assert forall|d: int| 0 <= d < n implies claims_of(datas0, self.marked@, d).len() + (if dependents@.subrange(0, dependents@.len() as int).contains(d as usize) { 1int } else { 0int })
                <= (#[trigger] datas0[d]).dependencies_remaining by {
                lemma_claims_after_mark(datas0, old_marked, system_idx as int, d);
                assert(dependents@.subrange(0, dependents@.len() as int) =~= dependents@);
            }
            assert(dependents@.subrange(0, 0) =~= Seq::<usize>::empty());
        }
        let mut k: usize = 0;
        while k < dependents.len()
            invariant
                n == self.system_datas@.len(),
                n == datas0.len(),
                n <= max_bits(),
                system_idx < n,
                dependents@ == datas0[system_idx as int].dependents@,
                dependents@.no_duplicates(),
                forall|l: int| 0 <= l < dependents@.len() ==> #[trigger] dependents@[l] < n,
                k <= dependents.len(),
                self.marked@ == old_marked.insert(system_idx as int),
                self.ready_systems@.len() == n,
                old(self).processed_systems@.len() == n,
                self.processed_systems@ == old(self).processed_systems@.update(system_idx as int, true),
                self.running_systems@ == old(self).running_systems@.update(system_idx as int, false),
                self.evaluated_sets == old(self).evaluated_sets,
                self.current_archetype_access == old(self).current_archetype_access,
                forall|i: int| 0 <= i < n ==> {
                    let before = datas0[i];
                    let after = #[trigger] self.system_datas@[i];
                    &&& after.dependencies_count == before.dependencies_count
                    &&& after.dependents == before.dependents
                    &&& after.archetype_access == before.archetype_access
                    &&& after.dependencies_remaining == if dependents@.subrange(0, k as int).contains(i as usize) {
                        (before.dependencies_remaining - 1) as usize
                    } else {
                        before.dependencies_remaining
                    }
                },
                forall|i: int| 0 <= i < n ==> #[trigger] self.ready_systems@[i] == (ready0[i]
                    || (dependents@.subrange(0, k as int).contains(i as usize) && datas0[i].dependencies_remaining == 1
                        && !self.processed_systems@[i])),
                forall|d: int| 0 <= d < n ==> claims_of(datas0, self.marked@, d).len() + (if dependents@.subrange(k as int, dependents@.len() as int).contains(d as usize) { 1int } else { 0int })
                    <= (#[trigger] datas0[d]).dependencies_remaining,
            decreases dependents.len() - k,
        {
            let d = dependents[k];
            proof {
                assert(dependents@.subrange(k as int, dependents@.len() as int)[0] == d);
                assert(!dependents@.subrange(0, k as int).contains(d)) by {
                    if dependents@.subrange(0, k as int).contains(d) {
                        let l = choose|l: int| 0 <= l < k && dependents@.subrange(0, k as int)[l] == d;
                        assert(dependents@[l] == dependents@[k as int]);
                    }
                }
            }
            self.system_datas[d].dependencies_remaining -= 1;
            if self.system_datas[d].dependencies_remaining == 0 && !self.processed_systems.get(d) {
                self.ready_systems.set(d, true);
            }
            k = k + 1;
            proof {
                lemma_split_contains(dependents@, k as int, d);
            }
        }
        proof {
            assert(dependents@.subrange(0, dependents@.len() as int) =~= dependents@);
            assert forall|d: int| 0 <= d < n implies claims_of(self.system_datas@, self.marked@, d).len() <= (#[trigger] self.system_datas@[d]).dependencies_remaining by {
                assert(claims_of(self.system_datas@, self.marked@, d) =~= claims_of(datas0, self.marked@, d));
                assert(dependents@.subrange(dependents@.len() as int, dependents@.len() as int) =~= Seq::<usize>::empty());
            }
            assert(self.running_systems@.len() == n);
            assert forall|i: int| 0 <= i < n implies (#[trigger] self.system_datas@[i]).dependents@.no_duplicates() by {
                assert(self.system_datas@[i].dependents == datas0[i].dependents);
            }
            assert forall|i: int, k: int|
                0 <= i < n && 0 <= k < self.system_datas@[i].dependents@.len()
                    implies #[trigger] self.system_datas@[i].dependents@[k] < n by {
                assert(self.system_datas@[i].dependents == datas0[i].dependents);
            }
            assert forall|i: int| #[trigger] self.marked@.contains(i) implies 0 <= i < n && self.processed_systems@[i] by {
                if i != system_idx {
                    assert(old_marked.contains(i));
                }
            }
            assert forall|i: int|
                0 <= i < n && #[trigger] self.ready_systems@[i] implies !self.marked@.contains(i) && !self.running_systems@[i]
                    && self.system_datas@[i].dependencies_remaining == 0 by {
                if ready0[i] {
                    assert(i != system_idx);
                    assert(!dependents@.contains(i as usize)) by {
                        if dependents@.contains(i as usize) {
                            assert(claims_of(old(self).system_datas@, old_marked, i).contains(system_idx as int));
                            lemma_positions_finite(claims_of(old(self).system_datas@, old_marked, i), n as int);
                            assert(claims_of(old(self).system_datas@, old_marked, i).len() > 0);
                        }
                    }
                } else {
                    assert(!self.processed_systems@[i]);
                    assert(i != system_idx);
                    if old_marked.contains(i) {
                        assert(old(self).processed_systems@[i]);
                    }
                    if old(self).running_systems@[i] {
                        assert(old(self).system_datas@[i].dependencies_remaining == 0);
                        assert(claims_of(old(self).system_datas@, old_marked, i).contains(system_idx as int));
                        lemma_positions_finite(claims_of(old(self).system_datas@, old_marked, i), n as int);
                    }
                }
            }
            assert forall|i: int|
                0 <= i < n && #[trigger] self.running_systems@[i] implies !self.marked@.contains(i)
                    && self.system_datas@[i].dependencies_remaining == 0 by {
                assert(i != system_idx);
                assert(old(self).running_systems@[i]);
                if dependents@.contains(i as usize) {
                    assert(claims_of(old(self).system_datas@, old_marked, i).contains(system_idx as int));
                    lemma_positions_finite(claims_of(old(self).system_datas@, old_marked, i), n as int);
                }
            }
            assert forall|i: int| 0 <= i < self.system_datas@.len() && #[trigger] self.running_systems@[i]
                implies covers(self.current_archetype_access@, self.system_datas@[i].archetype_access@) by {
                assert(old(self).running_systems@[i]);
            }
        }
    }

    /// Skips system `system_idx`, which is ready but does not run: it is no longer
    /// ready and is marked as processed.
    pub fn skip_system(&mut self, system_idx: usize)
        requires
            old(self).wf(),
            system_idx < old(self).datas().len(),
            old(self).ready()[system_idx as int],
        ensures
            final(self).wf(),
            final(self).processed() == old(self).processed().update(system_idx as int, true),
            final(self).running() == old(self).running().update(system_idx as int, false),
            final(self).evaluated() == old(self).evaluated(),
            final(self).current_access() == old(self).current_access(),
            forall|i: int| 0 <= i < old(self).datas().len() ==> #[trigger] final(self).ready()[i] == (old(self).ready().update(system_idx as int, false)[i]
                || (old(self).datas()[system_idx as int].dependents@.contains(i as usize) && old(self).datas()[i].dependencies_remaining == 1
                    && !final(self).processed()[i])),
    {
        self.ready_systems.set(system_idx, false);
        self.mark_system_as_processed(system_idx);
    }

    /// Records that system `system_idx`, which is ready, was started: its access joins
    /// the current access, and it is running instead of ready.
    pub fn start_system(&mut self, system_idx: usize)
        requires
            old(self).wf(),
            system_idx < old(self).datas().len(),
            old(self).ready()[system_idx as int],
            old(self).datas()[system_idx as int].archetype_access@.is_disjoint(old(self).current_access()),
        ensures
            final(self).wf(),
            final(self).datas() == old(self).datas(),
            final(self).current_access() == old(self).current_access().after_union(old(self).datas()[system_idx as int].archetype_access@),
            final(self).ready() == old(self).ready().update(system_idx as int, false),
            final(self).running() == old(self).running().update(system_idx as int, true),
            final(self).processed() == old(self).processed(),
            final(self).evaluated() == old(self).evaluated(),
    {
        self.current_archetype_access.union(&self.system_datas[system_idx].archetype_access);
        self.ready_systems.set(system_idx, false);
        self.running_systems.set(system_idx, true);
    }

    /// Starts system `system_idx`, which is ready, if its access is disjoint from that of
    /// the running systems; whether it started. A system that does not start stays
    /// ready and nothing changes.
    pub fn try_start_system(&mut self, system_idx: usize) -> (started: bool)
        requires
            old(self).wf(),
            system_idx < old(self).datas().len(),
            old(self).ready()[system_idx as int],
        ensures
            final(self).wf(),
            started == old(self).datas()[system_idx as int].archetype_access@.is_disjoint(old(self).current_access()),
            started ==> forall|r: int| 0 <= r < old(self).datas().len() && #[trigger] old(self).running()[r]
                ==> old(self).datas()[system_idx as int].archetype_access@.is_disjoint(old(self).datas()[r].archetype_access@),
            final(self).datas() == old(self).datas(),
            final(self).processed() == old(self).processed(),
            final(self).evaluated() == old(self).evaluated(),
            started ==> final(self).current_access() == old(self).current_access().after_union(old(self).datas()[system_idx as int].archetype_access@),
            started ==> final(self).ready() == old(self).ready().update(system_idx as int, false),
            started ==> final(self).running() == old(self).running().update(system_idx as int, true),
            !started ==> final(self).current_access() == old(self).current_access(),
            !started ==> final(self).ready() == old(self).ready(),
            !started ==> final(self).running() == old(self).running(),
    {
        if self.can_start(system_idx) {
            proof {
                assert forall|r: int| 0 <= r < self.datas().len() && #[trigger] self.running()[r]
                    implies self.datas()[system_idx as int].archetype_access@.is_disjoint(self.datas()[r].archetype_access@) by {
                    lemma_start_is_exclusive(self, system_idx as int, r);
                }
            }
            self.start_system(system_idx);
            true
        } else {
            false
        }
    }

    /// Records that system `system_idx`, which was running, has completed: it is marked
    /// as processed.
    pub fn complete_system(&mut self, system_idx: usize)
        requires
            old(self).wf(),
            system_idx < old(self).datas().len(),
            old(self).running()[system_idx as int],
        ensures
            final(self).wf(),
            final(self).processed() == old(self).processed().update(system_idx as int, true),
            final(self).running() == old(self).running().update(system_idx as int, false),
            final(self).evaluated() == old(self).evaluated(),
            final(self).current_access() == old(self).current_access(),
            forall|i: int| 0 <= i < old(self).datas().len() ==> #[trigger] final(self).ready()[i] == (old(self).ready()[i]
                || (old(self).datas()[system_idx as int].dependents@.contains(i as usize) && old(self).datas()[i].dependencies_remaining == 1
                    && !final(self).processed()[i])),
    {
        self.running_systems.set(system_idx, false);
        self.mark_system_as_processed(system_idx);
    }

    /// Rebuilds the current access from the running systems, in increasing order.
    pub fn refresh_current_access(&mut self)
        requires
            old(self).wf(),
        ensures
            final(self).wf(),
            final(self).datas() == old(self).datas(),
            final(self).ready() == old(self).ready(),
            final(self).running() == old(self).running(),
            final(self).processed() == old(self).processed(),
            final(self).evaluated() == old(self).evaluated(),
            final(self).current_access() == union_all(
                AccessView { reads: Seq::empty(), writes: Seq::empty() },
                ones_of(old(self).running()).map_values(|i: usize| old(self).datas()[i as int].archetype_access@),
            ),
    {
        self.current_archetype_access.clear();
        let running = self.running_systems.iter_ones();
        proof {
            lemma_ones_of(self.running_systems@);
        }
        let ghost target = running@.map_values(|i: usize| self.system_datas@[i as int].archetype_access@);
        let mut k: usize = 0;
        assert(target.subrange(0, 0) =~= Seq::<AccessView>::empty());
        while k < running.len()
            invariant
                self.bookkeeping_wf(),
                self.system_datas == old(self).system_datas,
                self.ready_systems == old(self).ready_systems,
                self.running_systems == old(self).running_systems,
                self.processed_systems == old(self).processed_systems,
                self.evaluated_sets == old(self).evaluated_sets,
                self.marked == old(self).marked,
                running@ == ones_of(self.running_systems@),
                forall|l: int| 0 <= l < running@.len() ==> #[trigger] running@[l] < self.running_systems@.len(),
                target == running@.map_values(|i: usize| self.system_datas@[i as int].archetype_access@),
                k <= running.len(),
                self.current_archetype_access@ == union_all(
                    AccessView { reads: Seq::empty(), writes: Seq::empty() },
                    target.subrange(0, k as int),
                ),
            decreases running.len() - k,
        {
            let idx = running[k];
            self.current_archetype_access.union(&self.system_datas[idx].archetype_access);
            proof {
                assert(target.subrange(0, k + 1).drop_last() =~= target.subrange(0, k as int));
            }
            k = k + 1;
        }
        assert(target.subrange(0, target.len() as int) =~= target);
        proof {
            lemma_union_all_covers(AccessView { reads: Seq::empty(), writes: Seq::empty() }, target);
            assert forall|i: int| 0 <= i < self.system_datas@.len() && #[trigger] self.running_systems@[i]
                implies covers(self.current_archetype_access@, self.system_datas@[i].archetype_access@) by {
                assert(running@.contains(i as usize));
                let k = choose|k: int| 0 <= k < running@.len() && running@[k] == i as usize;
                assert(target[k] == self.system_datas@[i].archetype_access@);
            }
        }
    }
}

/// Exclusive access: a system whose access is disjoint from the current one (what
/// `can_start` tells, and what `start_system` requires) conflicts with no running
/// system: neither reads what the other writes.
pub proof fn lemma_start_is_exclusive(exec: &ParallelExecutor, s: int, r: int)
    requires
        exec.wf(),
        0 <= s < exec.datas().len(),
        0 <= r < exec.datas().len(),
        exec.running()[r],
        exec.datas()[s].archetype_access@.is_disjoint(exec.current_access()),
    ensures
        exec.datas()[s].archetype_access@.is_disjoint(exec.datas()[r].archetype_access@),
{
    let a = exec.datas()[s].archetype_access@;
    let b = exec.datas()[r].archetype_access@;
    let current = exec.current_access();
    assert(covers(current, b));
    assert forall|i: int| !(#[trigger] bit_at(a.reads, i) && bit_at(b.writes, i)) by {
        if bit_at(b.writes, i) {
            assert(bit_at(current.writes, i));
        }
    }
    assert forall|i: int| !(#[trigger] bit_at(a.writes, i) && bit_at(b.reads, i)) by {
        if bit_at(b.reads, i) {
            assert(bit_at(current.reads, i));
        }
    }
}

/// The systems not yet processed that list `d` among their dependents.
pub open spec fn unprocessed_claims(datas: Seq<SystemData>, processed: Seq<bool>, d: int) -> Set<int> {
    Set::new(|i: int| 0 <= i < datas.len() && !processed[i] && datas[i].dependents@.contains(d as usize))
}

/// The first position of `p` that is not set, at or before `i`.
proof fn lemma_first_unset(p: Seq<bool>, i: int) -> (u: int)
    requires
        0 <= i < p.len(),
        !p[i],
    ensures
        0 <= u <= i,
        !p[u],
        forall|j: int| 0 <= j < u ==> p[j],
    decreases i,
{
    if exists|j: int| 0 <= j < i && !p[j] {
        let j = choose|j: int| 0 <= j < i && !p[j];
        lemma_first_unset(p, j)
    } else {
        i
    }
}

/// Progress: when the systems are ordered so that each system's dependents come after
/// it, and each unprocessed system waits on no more dependencies than there are
/// unprocessed systems that list it as a dependent (so every dependency is a system of
/// the schedule, and every processed system told its dependents), an unfinished run
/// with nothing running has an unprocessed system that waits on nothing: the first
/// unprocessed one.
pub proof fn lemma_run_progresses(exec: &ParallelExecutor) -> (u: int)
    requires
        exec.wf(),
        exists|i: int| 0 <= i < exec.processed().len() && !exec.processed()[i],
        forall|i: int| 0 <= i < exec.running().len() ==> !#[trigger] exec.running()[i],
        forall|i: int, k: int| 0 <= i < exec.datas().len() && 0 <= k < exec.datas()[i].dependents@.len()
            ==> #[trigger] exec.datas()[i].dependents@[k] > i,
        forall|d: int| 0 <= d < exec.datas().len() && !exec.processed()[d] ==>
            (#[trigger] exec.datas()[d]).dependencies_remaining <= unprocessed_claims(exec.datas(), exec.processed(), d).len(),
    ensures
        0 <= u < exec.datas().len(),
        !exec.processed()[u],
        !exec.running()[u],
        exec.datas()[u].dependencies_remaining == 0,
        forall|j: int| 0 <= j < u ==> exec.processed()[j],
{
    let i = choose|i: int| 0 <= i < exec.processed().len() && !exec.processed()[i];
    let u = lemma_first_unset(exec.processed(), i);
    let claims = unprocessed_claims(exec.datas(), exec.processed(), u);
    assert(claims =~= Set::<int>::empty()) by {
        assert forall|c: int| !claims.contains(c) by {
            if claims.contains(c) {
                let k = choose|k: int| 0 <= k < exec.datas()[c].dependents@.len() && exec.datas()[c].dependents@[k] == u as usize;
                assert(exec.datas()[c].dependents@[k] > c);
            }
        }
    }
    u
}

} // verus!
