//! Compiling a frame graph: culling and ordering the passes, gathering the textures
//! they use, and planning render targets and resource state transitions.
use vstd::prelude::*;
use crate::render_graph::registry::{ResourceHandle, ResourceRegistry, ResourceData, Resource, texture_size, desc_fits};
use crate::render_graph::render_pass::RenderPass;
use crate::gfx::{PixelFormat, texel_size};
use crate::gfx::backend::{
    TextureUsageFlags, TextureUsageFlagBits, texture_usage_bit, ResourceState, RenderPassTextureLoadMode,
    RenderPassTextureStoreMode,
};

verus! {

/// The traversal state of culling: the passes kept so far, and those whose inputs
/// are still to be looked at.
pub struct CullState {
    pub list: Seq<usize>,
    pub queue: Seq<usize>,
}

/// Looks at the first `k` passes for writers of `input` not kept yet, keeping and
/// queueing each.
pub open spec fn scan_passes<C>(passes: Seq<RenderPass<C>>, input: ResourceHandle, k: nat, st: CullState) -> CullState
    decreases k,
{
    if k == 0 {
        st
    } else {
        let s = scan_passes(passes, input, (k - 1) as nat, st);
        let i = (k - 1) as usize;
        if passes[k - 1].writes@.contains(input) && !s.list.contains(i) {
            CullState { list: s.list.push(i), queue: s.queue.push(i) }
        } else {
            s
        }
    }
}

/// Scans every pass for each of the first `j` inputs, in order.
pub open spec fn scan_inputs<C>(passes: Seq<RenderPass<C>>, inputs: Seq<ResourceHandle>, j: nat, st: CullState) -> CullState
    decreases j,
{
    if j == 0 {
        st
    } else {
        scan_passes(passes, inputs[j - 1], passes.len(), scan_inputs(passes, inputs, (j - 1) as nat, st))
    }
}

/// One step of culling: take the last queued pass and scan for the writers of its
/// inputs. Nothing changes once the queue is empty.
pub open spec fn cull_step<C>(passes: Seq<RenderPass<C>>, st: CullState) -> CullState {
    if st.queue.len() == 0 {
        st
    } else {
        let q = st.queue.last();
        let reads = passes[q as int].reads@;
        scan_inputs(passes, reads, reads.len(), CullState { list: st.list, queue: st.queue.drop_last() })
    }
}

/// `k` steps of culling.
pub open spec fn cull_steps<C>(passes: Seq<RenderPass<C>>, st: CullState, k: nat) -> CullState
    decreases k,
{
    if k == 0 {
        st
    } else {
        cull_step(passes, cull_steps(passes, st, (k - 1) as nat))
    }
}

/// The first `k` passes that write `backbuffer`, in order.
pub open spec fn backbuffer_writers<C>(passes: Seq<RenderPass<C>>, backbuffer: ResourceHandle, k: nat) -> Seq<usize>
    decreases k,
{
    if k == 0 {
        Seq::empty()
    } else {
        let s = backbuffer_writers(passes, backbuffer, (k - 1) as nat);
        if passes[k - 1].writes@.contains(backbuffer) {
            s.push((k - 1) as usize)
        } else {
            s
        }
    }
}

/// `order` is the order in which compiling runs the passes for `backbuffer`: start from
/// the passes that write the backbuffer, keep and queue every writer of an input of a
/// queued pass, and run the kept passes last kept first.
pub open spec fn culled_order<C>(passes: Seq<RenderPass<C>>, backbuffer: ResourceHandle, order: Seq<usize>) -> bool {
    let writers = backbuffer_writers(passes, backbuffer, passes.len());
    let init = CullState { list: writers, queue: writers };
    exists|k: nat|
        #![trigger cull_steps(passes, init, k)]
        cull_steps(passes, init, k).queue.len() == 0 && order == cull_steps(passes, init, k).list.reverse()
}

/// A sequence without duplicates of positions below `n` has at most `n` elements.
proof fn lemma_distinct_below(s: Seq<usize>, n: nat)
    requires
        s.no_duplicates(),
        forall|k: int| 0 <= k < s.len() ==> #[trigger] s[k] < n,
    ensures
        s.len() <= n,
{
    let range = Set::new(|i: usize| i < n);
    assert(s.to_set().subset_of(range));
    s.unique_seq_to_set();
    lemma_usize_range(n);
    vstd::set_lib::lemma_len_subset(s.to_set(), range);
}

/// The positions below `n`, as a set, are finite and `n` of them (for `n` a position).
proof fn lemma_usize_range(n: nat)
    ensures
        Set::new(|i: usize| i < n).finite(),
        n <= usize::MAX + 1 ==> Set::new(|i: usize| i < n).len() == n,
        Set::new(|i: usize| i < n).len() <= n,
    decreases n,
{
    if n == 0 {
        assert(Set::new(|i: usize| i < n) =~= Set::<usize>::empty());
    } else {
        lemma_usize_range((n - 1) as nat);
        if n <= usize::MAX + 1 {
            assert(Set::new(|i: usize| i < n) =~= Set::new(|i: usize| i < n - 1).insert((n - 1) as usize));
        } else {
            assert(Set::new(|i: usize| i < n) =~= Set::new(|i: usize| i < n - 1));
        }
    }
}

/// Whether `v` holds `x`.
fn holds_pass(v: &Vec<usize>, x: usize) -> (res: bool)
    ensures
        res == v@.contains(x),
{
    let mut i: usize = 0;
    while i < v.len()
        invariant
            i <= v.len(),
            forall|j: int| 0 <= j < i ==> v@[j] != x,
        decreases v.len() - i,
    {
        if v[i] == x {
            return true;
        }
        i = i + 1;
    }
    false
}

/// Whether `v` holds `x`.
pub fn holds_handle(v: &Vec<ResourceHandle>, x: ResourceHandle) -> (res: bool)
    ensures
        res == v@.contains(x),
{
    let mut i: usize = 0;
    while i < v.len()
        invariant
            i <= v.len(),
            forall|j: int| 0 <= j < i ==> v@[j] != x,
        decreases v.len() - i,
    {
        if v[i] == x {
            return true;
        }
        i = i + 1;
    }
    false
}

/// The order in which the passes needed for `backbuffer` run.
pub fn cull_passes<C>(passes: &Vec<RenderPass<C>>, backbuffer: ResourceHandle) -> (res: Vec<usize>)
    ensures
        culled_order(passes@, backbuffer, res@),
        res@.no_duplicates(),
        forall|k: int| 0 <= k < res@.len() ==> #[trigger] res@[k] < passes@.len(),
{
    let n = passes.len();
    let mut list: Vec<usize> = Vec::new();
    let mut i: usize = 0;
    while i < n
        invariant
            n == passes@.len(),
            i <= n,
            list@ == backbuffer_writers(passes@, backbuffer, i as nat),
            list@.no_duplicates(),
            forall|k: int| 0 <= k < list@.len() ==> #[trigger] list@[k] < i,
        decreases n - i,
    {
        if holds_handle(&passes[i].writes, backbuffer) {
            list.push(i);
        }
        i = i + 1;
    }
    let ghost writers = list@;
    let ghost init = CullState { list: writers, queue: writers };
    let mut queue: Vec<usize> = list.clone();
    let ghost mut steps: nat = 0;
    assert(queue@ == list@);
    proof {
        lemma_distinct_below(list@, n as nat);
    }
    while queue.len() > 0
        invariant
            n == passes@.len(),
            init == (CullState { list: writers, queue: writers }),
            writers == backbuffer_writers(passes@, backbuffer, n as nat),
            cull_steps(passes@, init, steps) == (CullState { list: list@, queue: queue@ }),
            list@.no_duplicates(),
            forall|k: int| 0 <= k < list@.len() ==> #[trigger] list@[k] < n,
            forall|k: int| 0 <= k < queue@.len() ==> #[trigger] queue@[k] < n,
            list@.len() <= n,
        decreases n - list@.len(), queue@.len(),
    {
        let ghost before = CullState { list: list@, queue: queue@ };
        let q = queue.pop().unwrap();
        let ghost after_pop = CullState { list: list@, queue: queue@ };
        assert(queue@ == before.queue.drop_last());
        let reads = &passes[q].reads;
        let mut j: usize = 0;
        while j < reads.len()
            invariant
                n == passes@.len(),
                q < n,
                *reads == passes@[q as int].reads,
                j <= reads.len(),
                scan_inputs(passes@, reads@, j as nat, after_pop) == (CullState { list: list@, queue: queue@ }),
                list@.no_duplicates(),
                forall|k: int| 0 <= k < list@.len() ==> #[trigger] list@[k] < n,
                forall|k: int| 0 <= k < queue@.len() ==> #[trigger] queue@[k] < n,
                list@.len() >= after_pop.list.len(),
                list@.len() == after_pop.list.len() ==> queue@ == after_pop.queue,
            decreases reads.len() - j,
        {
            let input = reads[j];
            let ghost before_input = CullState { list: list@, queue: queue@ };
            let mut i: usize = 0;
            while i < n
                invariant
                    n == passes@.len(),
                    i <= n,
                    scan_passes(passes@, input, i as nat, before_input) == (CullState { list: list@, queue: queue@ }),
                    list@.no_duplicates(),
                    forall|k: int| 0 <= k < list@.len() ==> #[trigger] list@[k] < n,
                    forall|k: int| 0 <= k < queue@.len() ==> #[trigger] queue@[k] < n,
                    list@.len() >= before_input.list.len(),
                    list@.len() == before_input.list.len() ==> queue@ == before_input.queue,
                decreases n - i,
            {
                if holds_handle(&passes[i].writes, input) && !holds_pass(&list, i) {
                    list.push(i);
                    queue.push(i);
                }
                i = i + 1;
            }
            j = j + 1;
        }
        proof {
            assert(cull_step(passes@, before) == (CullState { list: list@, queue: queue@ }));
            steps = steps + 1;
            lemma_distinct_below(list@, n as nat);
        }
    }
    let mut order: Vec<usize> = Vec::new();
    let mut k: usize = list.len();
    while k > 0
        invariant
            k <= list@.len(),
            order@ == list@.subrange(k as int, list@.len() as int).reverse(),
        decreases k,
    {
        k = k - 1;
        order.push(list[k]);
        assert(list@.subrange(k as int, list@.len() as int).reverse() =~= list@.subrange(k + 1, list@.len() as int).reverse().push(list@[k as int]));
    }
    proof {
        assert(list@.subrange(0, list@.len() as int) =~= list@);
        assert(cull_steps(passes@, init, steps).queue.len() == 0);
        assert(culled_order(passes@, backbuffer, order@));
        assert(order@.no_duplicates()) by {
            assert forall|a: int, b: int| 0 <= a < order@.len() && 0 <= b < order@.len() && a != b implies order@[a] != order@[b] by {
                assert(order@[a] == list@[list@.len() - 1 - a]);
                assert(order@[b] == list@[list@.len() - 1 - b]);
            }
        }
        assert forall|k: int| 0 <= k < order@.len() implies #[trigger] order@[k] < passes@.len() by {
            assert(order@[k] == list@[list@.len() - 1 - k]);
        }
    }
    order
}

/// The shape kept by culling: no pass is kept or queued twice, every queued pass is
/// kept, and every kept pass is a pass.
pub open spec fn cull_shape<C>(passes: Seq<RenderPass<C>>, st: CullState) -> bool {
    &&& st.list.no_duplicates()
    &&& st.queue.no_duplicates()
    &&& forall|x: usize| #[trigger] st.queue.contains(x) ==> st.list.contains(x)
    &&& forall|k: int| 0 <= k < st.list.len() ==> #[trigger] st.list[k] < passes.len()
}

/// Every kept pass whose inputs were looked at has each writer of each of its inputs
/// kept.
pub open spec fn cull_closed<C>(passes: Seq<RenderPass<C>>, st: CullState) -> bool {
    forall|p: usize, r: ResourceHandle, q: int|
        #![trigger st.list.contains(p), passes[p as int].reads@.contains(r), passes[q].writes@.contains(r)]
        st.list.contains(p) && !st.queue.contains(p) && passes[p as int].reads@.contains(r)
            && 0 <= q < passes.len() && passes[q].writes@.contains(r) ==> st.list.contains(q as usize)
}

/// Scanning the first `k` passes for writers of `input` keeps the shape, keeps what was
/// kept, looks at no new pass's inputs, and keeps every writer of `input` among them.
proof fn lemma_scan_passes<C>(passes: Seq<RenderPass<C>>, input: ResourceHandle, k: nat, st: CullState)
    requires
        cull_shape(passes, st),
        k <= passes.len(),
        passes.len() <= usize::MAX,
    ensures
        cull_shape(passes, scan_passes(passes, input, k, st)),
        forall|x: usize| #[trigger] st.list.contains(x) ==> scan_passes(passes, input, k, st).list.contains(x),
        forall|x: usize| #[trigger] scan_passes(passes, input, k, st).list.contains(x) && !scan_passes(passes, input, k, st).queue.contains(x)
            ==> st.list.contains(x) && !st.queue.contains(x),
        forall|i: int| 0 <= i < k && #[trigger] passes[i].writes@.contains(input) ==> scan_passes(passes, input, k, st).list.contains(i as usize),
    decreases k,
{
    if k > 0 {
        lemma_scan_passes(passes, input, (k - 1) as nat, st);
        let s = scan_passes(passes, input, (k - 1) as nat, st);
        let i = (k - 1) as usize;
        if passes[k - 1].writes@.contains(input) && !s.list.contains(i) {
            let t = CullState { list: s.list.push(i), queue: s.queue.push(i) };
            assert(!s.queue.contains(i));
            assert(t.list.no_duplicates()) by {
                assert forall|a: int, b: int| 0 <= a < t.list.len() && 0 <= b < t.list.len() && a != b implies t.list[a] != t.list[b] by {
                    if a == s.list.len() {
                        assert(s.list.contains(t.list[b]));
                    } else if b == s.list.len() {
                        assert(s.list.contains(t.list[a]));
                    }
                }
            }
            assert(t.queue.no_duplicates()) by {
                assert forall|a: int, b: int| 0 <= a < t.queue.len() && 0 <= b < t.queue.len() && a != b implies t.queue[a] != t.queue[b] by {
                    if a == s.queue.len() {
                        assert(s.queue.contains(t.queue[b]));
                    } else if b == s.queue.len() {
                        assert(s.queue.contains(t.queue[a]));
                    }
                }
            }
            assert forall|x: usize| #[trigger] t.queue.contains(x) implies t.list.contains(x) by {
                if x != i {
                    let a = choose|a: int| 0 <= a < t.queue.len() && t.queue[a] == x;
                    assert(s.queue.contains(x));
                    assert(s.list.contains(x));
                    let b = choose|b: int| 0 <= b < s.list.len() && s.list[b] == x;
                    assert(t.list[b] == x);
                } else {
                    assert(t.list[s.list.len() as int] == x);
                }
            }
            assert forall|x: usize| #[trigger] st.list.contains(x) implies t.list.contains(x) by {
                assert(s.list.contains(x));
                let b = choose|b: int| 0 <= b < s.list.len() && s.list[b] == x;
                assert(t.list[b] == x);
            }
            assert forall|x: usize| #[trigger] t.list.contains(x) && !t.queue.contains(x) implies st.list.contains(x) && !st.queue.contains(x) by {
                if x == i {
                    assert(t.queue[s.queue.len() as int] == x);
                } else {
                    let a = choose|a: int| 0 <= a < t.list.len() && t.list[a] == x;
                    assert(s.list[a] == x);
                    assert(s.list.contains(x));
                    if s.queue.contains(x) {
                        let b = choose|b: int| 0 <= b < s.queue.len() && s.queue[b] == x;
                        assert(t.queue[b] == x);
                    }
                }
            }
            assert forall|j: int| 0 <= j < k && #[trigger] passes[j].writes@.contains(input) implies t.list.contains(j as usize) by {
                if j == k - 1 {
                    assert(t.list[s.list.len() as int] == i);
                } else {
                    assert(s.list.contains(j as usize));
                    let b = choose|b: int| 0 <= b < s.list.len() && s.list[b] == j as usize;
                    assert(t.list[b] == j as usize);
                }
            }
        } else {
            assert forall|j: int| 0 <= j < k && #[trigger] passes[j].writes@.contains(input) implies s.list.contains(j as usize) by {
            }
        }
    }
}

/// Scanning for the writers of the first `j` inputs keeps the shape, keeps what was
/// kept, looks at no new pass's inputs, and keeps every writer of each of them.
proof fn lemma_scan_inputs<C>(passes: Seq<RenderPass<C>>, inputs: Seq<ResourceHandle>, j: nat, st: CullState)
    requires
        cull_shape(passes, st),
        j <= inputs.len(),
        passes.len() <= usize::MAX,
    ensures
        cull_shape(passes, scan_inputs(passes, inputs, j, st)),
        forall|x: usize| #[trigger] st.list.contains(x) ==> scan_inputs(passes, inputs, j, st).list.contains(x),
        forall|x: usize| #[trigger] scan_inputs(passes, inputs, j, st).list.contains(x) && !scan_inputs(passes, inputs, j, st).queue.contains(x)
            ==> st.list.contains(x) && !st.queue.contains(x),
        forall|r: ResourceHandle, i: int| inputs.subrange(0, j as int).contains(r) && 0 <= i < passes.len()
            && #[trigger] passes[i].writes@.contains(r) ==> scan_inputs(passes, inputs, j, st).list.contains(i as usize),
    decreases j,
{
    if j > 0 {
        lemma_scan_inputs(passes, inputs, (j - 1) as nat, st);
        let s = scan_inputs(passes, inputs, (j - 1) as nat, st);
        lemma_scan_passes(passes, inputs[j - 1], passes.len(), s);
        let t = scan_passes(passes, inputs[j - 1], passes.len(), s);
        assert forall|r: ResourceHandle, i: int| inputs.subrange(0, j as int).contains(r) && 0 <= i < passes.len()
            && #[trigger] passes[i].writes@.contains(r) implies t.list.contains(i as usize) by {
            let a = choose|a: int| 0 <= a < j && inputs.subrange(0, j as int)[a] == r;
            if a < j - 1 {
                assert(inputs.subrange(0, j - 1)[a] == r);
                assert(s.list.contains(i as usize));
            }
        }
    }
}

/// One step of culling keeps the shape and the closure.
proof fn lemma_cull_step<C>(passes: Seq<RenderPass<C>>, st: CullState)
    requires
        cull_shape(passes, st),
        cull_closed(passes, st),
        passes.len() <= usize::MAX,
    ensures
        cull_shape(passes, cull_step(passes, st)),
        cull_closed(passes, cull_step(passes, st)),
        forall|x: usize| #[trigger] st.list.contains(x) ==> cull_step(passes, st).list.contains(x),
{
    if st.queue.len() > 0 {
        let q = st.queue.last();
        let reads = passes[q as int].reads@;
        let popped = CullState { list: st.list, queue: st.queue.drop_last() };
        assert(st.queue.contains(q));
        assert(cull_shape(passes, popped)) by {
            assert forall|x: usize| #[trigger] popped.queue.contains(x) implies popped.list.contains(x) by {
                let a = choose|a: int| 0 <= a < popped.queue.len() && popped.queue[a] == x;
                assert(st.queue[a] == x);
                assert(st.queue.contains(x));
            }
            assert(popped.queue.no_duplicates()) by {
                assert forall|a: int, b: int| 0 <= a < popped.queue.len() && 0 <= b < popped.queue.len() && a != b implies popped.queue[a] != popped.queue[b] by {
                    assert(popped.queue[a] == st.queue[a] && popped.queue[b] == st.queue[b]);
                }
            }
        }
        lemma_scan_inputs(passes, reads, reads.len(), popped);
        let t = scan_inputs(passes, reads, reads.len(), popped);
        assert(reads.subrange(0, reads.len() as int) =~= reads);
        assert(!popped.queue.contains(q)) by {
            if popped.queue.contains(q) {
                let a = choose|a: int| 0 <= a < popped.queue.len() && popped.queue[a] == q;
                assert(st.queue[a] == st.queue[st.queue.len() - 1]);
            }
        }
        assert forall|p: usize, r: ResourceHandle, w: int|
            t.list.contains(p) && !t.queue.contains(p) && passes[p as int].reads@.contains(r)
                && 0 <= w < passes.len() && passes[w].writes@.contains(r) implies t.list.contains(w as usize) by {
            assert(popped.list.contains(p) && !popped.queue.contains(p));
            if p != q {
                assert(!st.queue.contains(p)) by {
                    if st.queue.contains(p) {
                        let a = choose|a: int| 0 <= a < st.queue.len() && st.queue[a] == p;
                        assert(popped.queue[a] == p);
                    }
                }
                assert(st.list.contains(w as usize));
            }
        }
    }
}

/// Culling from `init` for `k` steps keeps the shape and the closure.
proof fn lemma_cull_steps<C>(passes: Seq<RenderPass<C>>, init: CullState, k: nat)
    requires
        cull_shape(passes, init),
        cull_closed(passes, init),
        passes.len() <= usize::MAX,
    ensures
        cull_shape(passes, cull_steps(passes, init, k)),
        cull_closed(passes, cull_steps(passes, init, k)),
        forall|x: usize| #[trigger] init.list.contains(x) ==> cull_steps(passes, init, k).list.contains(x),
    decreases k,
{
    if k > 0 {
        lemma_cull_steps(passes, init, (k - 1) as nat);
        lemma_cull_step(passes, cull_steps(passes, init, (k - 1) as nat));
    }
}

/// The writers of the backbuffer among the first `k` passes, each once.
proof fn lemma_backbuffer_writers<C>(passes: Seq<RenderPass<C>>, backbuffer: ResourceHandle, k: nat)
    requires
        k <= passes.len(),
        passes.len() <= usize::MAX,
    ensures
        backbuffer_writers(passes, backbuffer, k).no_duplicates(),
        forall|j: int| 0 <= j < backbuffer_writers(passes, backbuffer, k).len() ==> #[trigger] backbuffer_writers(passes, backbuffer, k)[j] < k,
        forall|i: int| 0 <= i < k ==> (#[trigger] passes[i].writes@.contains(backbuffer) <==> backbuffer_writers(passes, backbuffer, k).contains(i as usize)),
    decreases k,
{
    if k > 0 {
        lemma_backbuffer_writers(passes, backbuffer, (k - 1) as nat);
        let s = backbuffer_writers(passes, backbuffer, (k - 1) as nat);
        let t = backbuffer_writers(passes, backbuffer, k);
        if passes[k - 1].writes@.contains(backbuffer) {
            assert forall|i: int| 0 <= i < k implies (#[trigger] passes[i].writes@.contains(backbuffer) <==> t.contains(i as usize)) by {
                if i < k - 1 {
                    if s.contains(i as usize) {
                        let a = choose|a: int| 0 <= a < s.len() && s[a] == i as usize;
                        assert(t[a] == i as usize);
                    }
                    if t.contains(i as usize) {
                        let a = choose|a: int| 0 <= a < t.len() && t[a] == i as usize;
                        if a < s.len() {
                            assert(s[a] == i as usize);
                        }
                    }
                } else {
                    assert(t[s.len() as int] == i as usize);
                }
            }
        } else {
            assert forall|i: int| 0 <= i < k implies (#[trigger] passes[i].writes@.contains(backbuffer) <==> t.contains(i as usize)) by {
                if i == k - 1 && t.contains(i as usize) {
                    let a = choose|a: int| 0 <= a < s.len() && s[a] == i as usize;
                }
            }
        }
    }
}

/// Culling keeps what the backbuffer needs: every pass that writes the backbuffer is
/// kept, and with every kept pass, every pass that writes one of its inputs. Each kept
/// position is a pass, kept once.
pub proof fn lemma_culled_order_keeps_needed_passes<C>(passes: Seq<RenderPass<C>>, backbuffer: ResourceHandle, order: Seq<usize>)
    requires
        culled_order(passes, backbuffer, order),
        passes.len() <= usize::MAX,
    ensures
        forall|i: int| 0 <= i < passes.len() && #[trigger] passes[i].writes@.contains(backbuffer) ==> order.contains(i as usize),
        forall|p: usize, r: ResourceHandle, q: int|
            #![trigger order.contains(p), passes[p as int].reads@.contains(r), passes[q].writes@.contains(r)]
            order.contains(p) && passes[p as int].reads@.contains(r) && 0 <= q < passes.len()
                && passes[q].writes@.contains(r) ==> order.contains(q as usize),
        forall|k: int| 0 <= k < order.len() ==> #[trigger] order[k] < passes.len(),
        order.no_duplicates(),
{
    let writers = backbuffer_writers(passes, backbuffer, passes.len());
    let init = CullState { list: writers, queue: writers };
    let k = choose|k: nat| #![trigger cull_steps(passes, init, k)]
        cull_steps(passes, init, k).queue.len() == 0 && order == cull_steps(passes, init, k).list.reverse();
    lemma_backbuffer_writers(passes, backbuffer, passes.len());
    assert(cull_closed(passes, init));
    lemma_cull_steps(passes, init, k);
    let fin = cull_steps(passes, init, k);
    assert forall|x: usize| #[trigger] order.contains(x) <==> fin.list.contains(x) by {
        if order.contains(x) {
            let a = choose|a: int| 0 <= a < order.len() && order[a] == x;
            assert(fin.list[fin.list.len() - 1 - a] == x);
        }
        if fin.list.contains(x) {
            let a = choose|a: int| 0 <= a < fin.list.len() && fin.list[a] == x;
            assert(order[fin.list.len() - 1 - a] == x);
        }
    }
    assert forall|i: int| 0 <= i < passes.len() && #[trigger] passes[i].writes@.contains(backbuffer) implies order.contains(i as usize) by {
        assert(writers.contains(i as usize));
        assert(init.list.contains(i as usize));
        assert(fin.list.contains(i as usize));
    }
    assert forall|p: usize, r: ResourceHandle, q: int|
        order.contains(p) && passes[p as int].reads@.contains(r) && 0 <= q < passes.len()
            && passes[q].writes@.contains(r) implies order.contains(q as usize) by {
        assert(fin.list.contains(p));
        assert(!fin.queue.contains(p));
    }
    assert forall|k: int| 0 <= k < order.len() implies #[trigger] order[k] < passes.len() by {
        assert(order[k] == fin.list[fin.list.len() - 1 - k]);
    }
    assert(order.no_duplicates()) by {
        assert forall|a: int, b: int| 0 <= a < order.len() && 0 <= b < order.len() && a != b implies order[a] != order[b] by {
            assert(order[a] == fin.list[fin.list.len() - 1 - a]);
            assert(order[b] == fin.list[fin.list.len() - 1 - b]);
        }
    }
}

/// A texture that the compiled graph needs: its size, format, usages and the resource
/// it is made for.
#[derive(Copy, Clone)]
pub struct CompiledTexture {
    pub width: u32,
    pub height: u32,
    pub format: PixelFormat,
    pub usage: TextureUsageFlags,
    pub handle: ResourceHandle,
    pub alias_with: Option<usize>,
}

/// The size in bytes of a compiled texture.
pub open spec fn compiled_size(t: CompiledTexture) -> int {
    t.width * t.height * texel_size(t.format)
}

/// The state of gathering textures: the textures so far, the pool of textures no
/// longer used, the resources (whose last use is recorded), and whether a texture
/// could have been aliased (which compiling refuses).
pub struct TextureState {
    pub textures: Seq<CompiledTexture>,
    pub pool: Seq<usize>,
    pub resources: Seq<Resource>,
    pub failed: bool,
}

/// The texture that `h` stands for, through any chain of proxies.
pub open spec fn chase(res: Seq<Resource>, h: ResourceHandle) -> ResourceHandle
    decreases h.0,
{
    if h.0 < res.len() {
        match res[h.0 as int].data {
            ResourceData::Proxy(p) => if p.0 < h.0 {
                chase(res, p)
            } else {
                h
            },
            _ => h,
        }
    } else {
        h
    }
}

/// The resource a proxy at `h` stands for, or `h`.
pub open spec fn resolved_in(res: Seq<Resource>, h: ResourceHandle) -> ResourceHandle {
    match res[h.0 as int].data {
        ResourceData::Proxy(p) => p,
        _ => h,
    }
}

/// The resource at `h` is a texture.
pub open spec fn is_texture_in(res: Seq<Resource>, h: ResourceHandle) -> bool {
    res[h.0 as int].data is Texture
}

/// The position of the compiled texture made for `h`, if there is one.
pub open spec fn index_of(textures: Seq<CompiledTexture>, h: ResourceHandle) -> Option<int> {
    if exists|i: int| 0 <= i < textures.len() && textures[i].handle == h {
        Some(choose|i: int| 0 <= i < textures.len() && textures[i].handle == h)
    } else {
        None
    }
}

/// Some pooled texture that does not come from outside is at least `size` bytes.
pub open spec fn can_alias(st: TextureState, size: int) -> bool {
    exists|k: int|
        0 <= k < st.pool.len() && st.pool[k] < st.textures.len() && compiled_size(st.textures[st.pool[k] as int]) >= size
            && !st.resources[st.textures[st.pool[k] as int].handle.0 as int].external
}

/// Records a use of `h` with usage `bit`: a texture that could reuse a pooled one
/// fails compiling; otherwise its compiled texture gains the usage, or is added.
pub open spec fn add_use(st: TextureState, h: ResourceHandle, bit: u32) -> TextureState {
    if st.failed {
        st
    } else {
        let t = chase(st.resources, h);
        let desc = st.resources[t.0 as int].data->Texture_0;
        if !st.resources[t.0 as int].external && can_alias(st, texture_size(desc)) {
            TextureState { failed: true, ..st }
        } else {
            match index_of(st.textures, t) {
                Some(i) => TextureState {
                    textures: st.textures.update(
                        i,
                        CompiledTexture {
                            usage: TextureUsageFlags { bits: st.textures[i].usage.bits | bit },
                            ..st.textures[i]
                        },
                    ),
                    ..st
                },
                None => TextureState {
                    textures: st.textures.push(
                        CompiledTexture {
                            width: desc.width,
                            height: desc.height,
                            format: desc.format,
                            usage: TextureUsageFlags { bits: 0u32 | bit },
                            handle: t,
                            alias_with: None,
                        },
                    ),
                    ..st
                },
            }
        }
    }
}

/// Records the uses of the first `k` of `hs` with usage `bit`.
pub open spec fn add_uses(st: TextureState, hs: Seq<ResourceHandle>, bit: u32, k: nat) -> TextureState
    decreases k,
{
    if k == 0 {
        st
    } else {
        add_use(add_uses(st, hs, bit, (k - 1) as nat), hs[k - 1], bit)
    }
}

/// The resources a pass uses: its reads, its writes and its depth-stencil target.
pub open spec fn pass_resources<C>(pass: RenderPass<C>) -> Seq<ResourceHandle> {
    pass.reads@ + pass.writes@ + match pass.depth_stencil_output {
        Some(ds) => seq![ds],
        None => Seq::empty(),
    }
}

/// Records pass `p` as the last use of each texture among the first `k` of `hs`.
pub open spec fn mark_uses(st: TextureState, p: usize, hs: Seq<ResourceHandle>, k: nat) -> TextureState
    decreases k,
{
    if k == 0 {
        st
    } else {
        let s = mark_uses(st, p, hs, (k - 1) as nat);
        let h = hs[k - 1];
        if is_texture_in(s.resources, h) {
            TextureState {
                resources: s.resources.update(h.0 as int, Resource { last_pass_use: Some(p), ..s.resources[h.0 as int] }),
                ..s
            }
        } else {
            s
        }
    }
}

/// Pools the compiled texture of each of the first `k` of `hs` (resolved) whose last
/// use is pass `p`.
pub open spec fn release(st: TextureState, p: usize, hs: Seq<ResourceHandle>, k: nat) -> TextureState
    decreases k,
{
    if k == 0 {
        st
    } else {
        let s = release(st, p, hs, (k - 1) as nat);
        let r = resolved_in(s.resources, hs[k - 1]);
        if is_texture_in(s.resources, r) && s.resources[r.0 as int].last_pass_use == Some(p) && index_of(
            s.textures,
            r,
        ) is Some {
            TextureState { pool: s.pool.push(index_of(s.textures, r).unwrap() as usize), ..s }
        } else {
            s
        }
    }
}

/// Gathers the textures of pass `p`: marks its uses, records its reads (sampled), writes
/// (render target) and depth-stencil target, then pools what it used last.
pub open spec fn gather_pass<C>(st: TextureState, p: usize, pass: RenderPass<C>) -> TextureState {
    let rs = pass_resources(pass);
    let marked = mark_uses(st, p, rs, rs.len());
    let read = add_uses(marked, pass.reads@, texture_usage_bit(TextureUsageFlagBits::Sampled), pass.reads@.len());
    let written = add_uses(read, pass.writes@, texture_usage_bit(TextureUsageFlagBits::RenderTarget), pass.writes@.len());
    let ds = match pass.depth_stencil_output {
        Some(h) => add_use(written, h, texture_usage_bit(TextureUsageFlagBits::DepthStencil)),
        None => written,
    };
    if ds.failed {
        ds
    } else {
        release(ds, p, rs, rs.len())
    }
}

/// Gathers the textures of the first `k` passes of `order`.
pub open spec fn gather<C>(st: TextureState, passes: Seq<RenderPass<C>>, order: Seq<usize>, k: nat) -> TextureState
    decreases k,
{
    if k == 0 {
        st
    } else {
        let s = gather(st, passes, order, (k - 1) as nat);
        if s.failed {
            s
        } else {
            gather_pass(s, order[k - 1], passes[order[k - 1] as int])
        }
    }
}

/// `bits` holds every bit of `flag`.
pub open spec fn has_usage(bits: u32, flag: u32) -> bool {
    bits & flag == flag
}

/// The resources `b` hold the same kinds of data as `a`: only last uses may differ.
pub open spec fn same_data(a: Seq<Resource>, b: Seq<Resource>) -> bool {
    a.len() == b.len() && forall|i: int| 0 <= i < a.len() ==> #[trigger] b[i].data == a[i].data
}

/// The textures `b` keep those of `a` in place, for the same resources, with at least
/// their usages.
pub open spec fn keeps_textures(a: Seq<CompiledTexture>, b: Seq<CompiledTexture>) -> bool {
    a.len() <= b.len() && forall|i: int| 0 <= i < a.len() ==> #[trigger] texture_kept(a[i], b[i])
}

/// `y` is made for the resource of `x`, with at least its usages.
pub open spec fn texture_kept(x: CompiledTexture, y: CompiledTexture) -> bool {
    y.handle == x.handle && y.usage.bits & x.usage.bits == x.usage.bits
}

proof fn lemma_bits_superset(a: u32, b: u32, c: u32, f: u32)
    ensures
        (b & a == a && c & b == b) ==> c & a == a,
        (a & f == f && b & a == a) ==> b & f == f,
        (a | f) & a == a,
        (a | f) & f == f,
{
    assert((b & a == a && c & b == b) ==> c & a == a) by (bit_vector);
    assert((a & f == f && b & a == a) ==> b & f == f) by (bit_vector);
    assert((a | f) & a == a) by (bit_vector);
    assert((a | f) & f == f) by (bit_vector);
}

proof fn lemma_keeps_textures_trans(a: Seq<CompiledTexture>, b: Seq<CompiledTexture>, c: Seq<CompiledTexture>)
    requires
        keeps_textures(a, b),
        keeps_textures(b, c),
    ensures
        keeps_textures(a, c),
{
    assert forall|i: int| 0 <= i < a.len() implies #[trigger] texture_kept(a[i], c[i]) by {
        assert(texture_kept(a[i], b[i]));
        assert(texture_kept(b[i], c[i]));
        lemma_bits_superset(a[i].usage.bits, b[i].usage.bits, c[i].usage.bits, 0);
    }
}

/// Chasing depends only on the kinds of data of the resources.
proof fn lemma_chase_same_data(a: Seq<Resource>, b: Seq<Resource>, h: ResourceHandle)
    requires
        same_data(a, b),
    ensures
        chase(a, h) == chase(b, h),
    decreases h.0,
{
    if h.0 < a.len() {
        assert(b[h.0 as int].data == a[h.0 as int].data);
        match a[h.0 as int].data {
            ResourceData::Proxy(p) => {
                if p.0 < h.0 {
                    lemma_chase_same_data(a, b, p);
                }
            },
            _ => {},
        }
    }
}

/// Recording a use keeps the textures and the resources, and when it does not fail,
/// the compiled texture of what `h` stands for has the usage `bit`.
proof fn lemma_add_use(st: TextureState, h: ResourceHandle, bit: u32)
    ensures
        keeps_textures(st.textures, add_use(st, h, bit).textures),
        add_use(st, h, bit).resources == st.resources,
        st.failed ==> add_use(st, h, bit).failed,
        !add_use(st, h, bit).failed ==> exists|i: int| 0 <= i < add_use(st, h, bit).textures.len()
            && add_use(st, h, bit).textures[i].handle == chase(st.resources, h)
            && has_usage(add_use(st, h, bit).textures[i].usage.bits, bit),
{
    let r = add_use(st, h, bit);
    assert forall|i: int| 0 <= i < st.textures.len() implies #[trigger] texture_kept(st.textures[i], r.textures[i]) by {
        let b = st.textures[i].usage.bits;
        lemma_bits_superset(b, 0, 0, bit);
        assert(b & b == b) by (bit_vector);
    }
    if !r.failed && !st.failed {
        let t = chase(st.resources, h);
        match index_of(st.textures, t) {
            Some(i) => {
                lemma_bits_superset(st.textures[i].usage.bits, 0, 0, bit);
                assert(r.textures[i].handle == t);
                assert(has_usage(r.textures[i].usage.bits, bit));
            },
            None => {
                let k = st.textures.len() as int;
                lemma_bits_superset(0u32, 0, 0, bit);
                assert(r.textures[k].handle == t);
                assert(has_usage(r.textures[k].usage.bits, bit));
            },
        }
    }
}

proof fn lemma_add_uses(st: TextureState, hs: Seq<ResourceHandle>, bit: u32, k: nat)
    ensures
        keeps_textures(st.textures, add_uses(st, hs, bit, k).textures),
        add_uses(st, hs, bit, k).resources == st.resources,
        st.failed ==> add_uses(st, hs, bit, k).failed,
    decreases k,
{
    if k == 0 {
        lemma_keeps_textures_refl(st.textures);
    } else {
        lemma_add_uses(st, hs, bit, (k - 1) as nat);
        let s = add_uses(st, hs, bit, (k - 1) as nat);
        lemma_add_use(s, hs[k - 1], bit);
        lemma_keeps_textures_trans(st.textures, s.textures, add_uses(st, hs, bit, k).textures);
    }
}

proof fn lemma_mark_uses(st: TextureState, p: usize, hs: Seq<ResourceHandle>, k: nat)
    requires
        k <= hs.len(),
        forall|j: int| 0 <= j < hs.len() ==> (#[trigger] hs[j]).0 < st.resources.len(),
    ensures
        mark_uses(st, p, hs, k).textures == st.textures,
        mark_uses(st, p, hs, k).failed == st.failed,
        same_data(st.resources, mark_uses(st, p, hs, k).resources),
    decreases k,
{
    if k > 0 {
        lemma_mark_uses(st, p, hs, (k - 1) as nat);
        let s = mark_uses(st, p, hs, (k - 1) as nat);
        let t = mark_uses(st, p, hs, k);
        assert forall|i: int| 0 <= i < st.resources.len() implies #[trigger] t.resources[i].data == st.resources[i].data by {
            assert(s.resources[i].data == st.resources[i].data);
        }
    }
}

proof fn lemma_release(st: TextureState, p: usize, hs: Seq<ResourceHandle>, k: nat)
    ensures
        release(st, p, hs, k).textures == st.textures,
        release(st, p, hs, k).failed == st.failed,
        release(st, p, hs, k).resources == st.resources,
    decreases k,
{
    if k > 0 {
        lemma_release(st, p, hs, (k - 1) as nat);
    }
}

proof fn lemma_keeps_textures_refl(a: Seq<CompiledTexture>)
    ensures
        keeps_textures(a, a),
{
    assert forall|i: int| 0 <= i < a.len() implies #[trigger] texture_kept(a[i], a[i]) by {
        let b = a[i].usage.bits;
        assert(b & b == b) by (bit_vector);
    }
}

/// Gathering one pass keeps the textures and the kinds of resources, and when it does
/// not fail, the compiled texture of what its depth-stencil output stands for has the
/// depth-stencil usage.
proof fn lemma_gather_pass<C>(st: TextureState, p: usize, pass: RenderPass<C>)
    requires
        pass.wf(st.resources.len()),
    ensures
        keeps_textures(st.textures, gather_pass(st, p, pass).textures),
        same_data(st.resources, gather_pass(st, p, pass).resources),
        st.failed ==> gather_pass(st, p, pass).failed,
        !gather_pass(st, p, pass).failed ==> (pass.depth_stencil_output matches Some(h) ==> exists|i: int|
            0 <= i < gather_pass(st, p, pass).textures.len()
            && gather_pass(st, p, pass).textures[i].handle == chase(st.resources, h)
            && has_usage(gather_pass(st, p, pass).textures[i].usage.bits, texture_usage_bit(TextureUsageFlagBits::DepthStencil))),
{
    let rs = pass_resources(pass);
    assert forall|j: int| 0 <= j < rs.len() implies (#[trigger] rs[j]).0 < st.resources.len() by {
        if j < pass.reads@.len() {
            assert(rs[j] == pass.reads@[j]);
        } else if j < pass.reads@.len() + pass.writes@.len() {
            assert(rs[j] == pass.writes@[j - pass.reads@.len()]);
        }
    }
    let marked = mark_uses(st, p, rs, rs.len());
    lemma_mark_uses(st, p, rs, rs.len());
    let sampled = texture_usage_bit(TextureUsageFlagBits::Sampled);
    let target = texture_usage_bit(TextureUsageFlagBits::RenderTarget);
    let depth = texture_usage_bit(TextureUsageFlagBits::DepthStencil);
    let read = add_uses(marked, pass.reads@, sampled, pass.reads@.len());
    lemma_add_uses(marked, pass.reads@, sampled, pass.reads@.len());
    let written = add_uses(read, pass.writes@, target, pass.writes@.len());
    lemma_add_uses(read, pass.writes@, target, pass.writes@.len());
    lemma_keeps_textures_trans(marked.textures, read.textures, written.textures);
    let ds = match pass.depth_stencil_output {
        Some(h) => add_use(written, h, depth),
        None => written,
    };
    match pass.depth_stencil_output {
        Some(h) => {
            lemma_add_use(written, h, depth);
            lemma_keeps_textures_trans(marked.textures, written.textures, ds.textures);
            lemma_chase_same_data(st.resources, written.resources, h);
        },
        None => {},
    }
    if !ds.failed {
        lemma_release(ds, p, rs, rs.len());
    }
}

/// Gathering the first `k` passes of `order` keeps the textures and the kinds of
/// resources, and when it does not fail, every depth-stencil output of those passes
/// has a compiled texture with the depth-stencil usage.
proof fn lemma_gather_depth_stencil<C>(st: TextureState, passes: Seq<RenderPass<C>>, order: Seq<usize>, k: nat)
    requires
        k <= order.len(),
        forall|j: int| 0 <= j < order.len() ==> (#[trigger] passes[order[j] as int]).wf(st.resources.len()),
    ensures
        keeps_textures(st.textures, gather(st, passes, order, k).textures),
        same_data(st.resources, gather(st, passes, order, k).resources),
        st.failed ==> gather(st, passes, order, k).failed,
        !gather(st, passes, order, k).failed ==> forall|j: int| 0 <= j < k ==>
            (#[trigger] passes[order[j] as int].depth_stencil_output matches Some(h) ==> exists|i: int|
            0 <= i < gather(st, passes, order, k).textures.len()
            && gather(st, passes, order, k).textures[i].handle == chase(st.resources, h)
            && has_usage(gather(st, passes, order, k).textures[i].usage.bits, texture_usage_bit(TextureUsageFlagBits::DepthStencil))),
    decreases k,
{
    if k == 0 {
        lemma_keeps_textures_refl(st.textures);
    } else {
        lemma_gather_depth_stencil(st, passes, order, (k - 1) as nat);
        let s = gather(st, passes, order, (k - 1) as nat);
        let g = gather(st, passes, order, k);
        if !s.failed {
            let p = order[k - 1];
            assert(passes[order[k - 1] as int].wf(st.resources.len()));
            lemma_gather_pass(s, p, passes[p as int]);
            lemma_keeps_textures_trans(st.textures, s.textures, g.textures);
            if !g.failed {
                let depth = texture_usage_bit(TextureUsageFlagBits::DepthStencil);
                assert forall|j: int| 0 <= j < k implies
                    (#[trigger] passes[order[j] as int].depth_stencil_output matches Some(h) ==> exists|i: int|
                    0 <= i < g.textures.len() && g.textures[i].handle == chase(st.resources, h)
                    && has_usage(g.textures[i].usage.bits, depth)) by {
                    if let Some(h) = passes[order[j] as int].depth_stencil_output {
                        lemma_chase_same_data(st.resources, s.resources, h);
                        if j < k - 1 {
                            let i = choose|i: int| 0 <= i < s.textures.len() && s.textures[i].handle == chase(st.resources, h)
                                && has_usage(s.textures[i].usage.bits, depth);
                            assert(texture_kept(s.textures[i], g.textures[i]));
                            lemma_bits_superset(s.textures[i].usage.bits, g.textures[i].usage.bits, 0, depth);
                            assert(g.textures[i].handle == chase(st.resources, h));
                            assert(has_usage(g.textures[i].usage.bits, depth));
                        }
                    }
                }
            }
        } else {
            lemma_keeps_textures_refl(s.textures);
        }
    }
}

/// Compiling makes each depth-stencil output a depth-stencil texture: for every kept
/// pass with a depth-stencil output, the compiled textures hold one for the texture the
/// output stands for, with the depth-stencil usage.
pub proof fn lemma_depth_stencil_outputs_get_depth_usage<C>(
    res: Seq<Resource>,
    passes: Seq<RenderPass<C>>,
    backbuffer: ResourceHandle,
    order: Seq<usize>,
    graph: CompiledFrameGraph<C>,
)
    requires
        compiled_as(Ok(graph), res, passes, backbuffer, order),
        forall|i: int| 0 <= i < passes.len() ==> (#[trigger] passes[i]).wf(res.len()),
        forall|k: int| 0 <= k < order.len() ==> #[trigger] order[k] < passes.len(),
    ensures
        forall|k: int| 0 <= k < graph.passes@.len() ==>
            (#[trigger] passes[graph.passes@[k].pass_index as int].depth_stencil_output matches Some(h) ==> exists|i: int|
            0 <= i < graph.textures@.len() && graph.textures@[i].handle == chase(res, h)
            && has_usage(graph.textures@[i].usage.bits, texture_usage_bit(TextureUsageFlagBits::DepthStencil))),
{
    let st0 = TextureState { textures: Seq::empty(), pool: Seq::empty(), resources: res, failed: false };
    assert forall|j: int| 0 <= j < order.len() implies (#[trigger] passes[order[j] as int]).wf(st0.resources.len()) by {
        assert(order[j] < passes.len());
    }
    lemma_gather_depth_stencil(st0, passes, order, order.len());
    assert forall|k: int| 0 <= k < graph.passes@.len() implies
        (#[trigger] passes[graph.passes@[k].pass_index as int].depth_stencil_output matches Some(h) ==> exists|i: int|
        0 <= i < graph.textures@.len() && graph.textures@[i].handle == chase(res, h)
        && has_usage(graph.textures@[i].usage.bits, texture_usage_bit(TextureUsageFlagBits::DepthStencil))) by {
        assert(graph.passes@[k].pass_index == order[k]);
        assert(passes[order[k] as int] == passes[graph.passes@[k].pass_index as int]);
    }
}

/// Some write of one of the first `k` passes of `order` stands for the texture `t`.
pub open spec fn written_in<C>(res: Seq<Resource>, passes: Seq<RenderPass<C>>, order: Seq<usize>, k: int, t: ResourceHandle) -> bool {
    exists|j: int, w: int|
        0 <= j < k && 0 <= w < passes[order[j] as int].writes@.len()
            && #[trigger] chase(res, passes[order[j] as int].writes@[w]) == t
}

proof fn lemma_target_bit(a: u32, b: u32)
    ensures
        ((a | b) & 2u32 == 2u32) ==> (a & 2u32 == 2u32 || b & 2u32 == 2u32),
        0u32 & 2u32 != 2u32,
        4u32 & 2u32 != 2u32,
        8u32 & 2u32 != 2u32,
{
    assert(0u32 & 2u32 != 2u32) by (bit_vector);
    assert(((a | b) & 2u32 == 2u32) ==> (a & 2u32 == 2u32 || b & 2u32 == 2u32)) by (bit_vector);
    assert(4u32 & 2u32 != 2u32) by (bit_vector);
    assert(8u32 & 2u32 != 2u32) by (bit_vector);
}

/// After recording a use, a compiled texture with the render-target usage either had it
/// before, or gained it from this use, made for what `h` stands for.
proof fn lemma_add_use_target(st: TextureState, h: ResourceHandle, bit: u32)
    ensures
        forall|i: int| 0 <= i < add_use(st, h, bit).textures.len()
            && #[trigger] has_usage(add_use(st, h, bit).textures[i].usage.bits, 2u32) ==>
            (i < st.textures.len() && has_usage(st.textures[i].usage.bits, 2u32))
            || (has_usage(bit, 2u32) && add_use(st, h, bit).textures[i].handle == chase(st.resources, h)),
{
    let r = add_use(st, h, bit);
    assert forall|i: int| 0 <= i < r.textures.len() && #[trigger] has_usage(r.textures[i].usage.bits, 2u32) implies
        (i < st.textures.len() && has_usage(st.textures[i].usage.bits, 2u32))
        || (has_usage(bit, 2u32) && r.textures[i].handle == chase(st.resources, h)) by {
        if !st.failed && !r.failed {
            let t = chase(st.resources, h);
            match index_of(st.textures, t) {
                Some(j) => {
                    assert(0 <= j < st.textures.len() && st.textures[j].handle == t);
                    if i == j {
                        lemma_target_bit(st.textures[j].usage.bits, bit);
                        assert(r.textures[i].usage.bits == st.textures[j].usage.bits | bit);
                        assert(r.textures[i].handle == t);
                    } else {
                        assert(r.textures[i] == st.textures[i]);
                    }
                },
                None => {
                    if i == st.textures.len() {
                        lemma_target_bit(0u32, bit);
                        assert(r.textures[i].usage.bits == 0u32 | bit);
                        assert(r.textures[i].handle == t);
                    } else {
                        assert(r.textures[i] == st.textures[i]);
                    }
                },
            }
        } else {
            assert(r.textures == st.textures);
        }
    }
}

/// After recording the first `k` uses of `hs`, a compiled texture with the render-target
/// usage either had it before, or gained it from one of those uses.
proof fn lemma_add_uses_target(st: TextureState, hs: Seq<ResourceHandle>, bit: u32, k: nat)
    requires
        k <= hs.len(),
    ensures
        forall|i: int| 0 <= i < add_uses(st, hs, bit, k).textures.len()
            && #[trigger] has_usage(add_uses(st, hs, bit, k).textures[i].usage.bits, 2u32) ==>
            (i < st.textures.len() && has_usage(st.textures[i].usage.bits, 2u32))
            || (has_usage(bit, 2u32) && exists|w: int| 0 <= w < k
                && add_uses(st, hs, bit, k).textures[i].handle == #[trigger] chase(st.resources, hs[w])),
    decreases k,
{
    if k > 0 {
        lemma_add_uses_target(st, hs, bit, (k - 1) as nat);
        lemma_add_uses(st, hs, bit, (k - 1) as nat);
        let s = add_uses(st, hs, bit, (k - 1) as nat);
        let r = add_uses(st, hs, bit, k);
        lemma_add_use_target(s, hs[k - 1], bit);
        lemma_add_use(s, hs[k - 1], bit);
        assert forall|i: int| 0 <= i < r.textures.len() && #[trigger] has_usage(r.textures[i].usage.bits, 2u32) implies
            (i < st.textures.len() && has_usage(st.textures[i].usage.bits, 2u32))
            || (has_usage(bit, 2u32) && exists|w: int| 0 <= w < k
                && r.textures[i].handle == #[trigger] chase(st.resources, hs[w])) by {
            if i < s.textures.len() && has_usage(s.textures[i].usage.bits, 2u32) {
                assert(texture_kept(s.textures[i], r.textures[i]));
                if !(i < st.textures.len() && has_usage(st.textures[i].usage.bits, 2u32)) {
                    let w = choose|w: int| 0 <= w < k - 1 && s.textures[i].handle == #[trigger] chase(st.resources, hs[w]);
                    assert(r.textures[i].handle == chase(st.resources, hs[w]));
                }
            } else {
                assert(r.textures[i].handle == chase(st.resources, hs[k - 1]));
            }
        }
    }
}

/// After gathering a pass, a compiled texture with the render-target usage either had it
/// before, or is what one of the pass's writes stands for.
proof fn lemma_gather_pass_target<C>(st: TextureState, p: usize, pass: RenderPass<C>)
    requires
        pass.wf(st.resources.len()),
    ensures
        forall|i: int| 0 <= i < gather_pass(st, p, pass).textures.len()
            && #[trigger] has_usage(gather_pass(st, p, pass).textures[i].usage.bits, 2u32) ==>
            (i < st.textures.len() && has_usage(st.textures[i].usage.bits, 2u32))
            || exists|w: int| 0 <= w < pass.writes@.len()
                && gather_pass(st, p, pass).textures[i].handle == #[trigger] chase(st.resources, pass.writes@[w]),
{
    let g = gather_pass(st, p, pass);
    let rs = pass_resources(pass);
    assert forall|j: int| 0 <= j < rs.len() implies (#[trigger] rs[j]).0 < st.resources.len() by {
        if j < pass.reads@.len() {
            assert(rs[j] == pass.reads@[j]);
        } else if j < pass.reads@.len() + pass.writes@.len() {
            assert(rs[j] == pass.writes@[j - pass.reads@.len()]);
        }
    }
    let marked = mark_uses(st, p, rs, rs.len());
    lemma_mark_uses(st, p, rs, rs.len());
    let sampled = texture_usage_bit(TextureUsageFlagBits::Sampled);
    let target = texture_usage_bit(TextureUsageFlagBits::RenderTarget);
    let depth = texture_usage_bit(TextureUsageFlagBits::DepthStencil);
    lemma_target_bit(0, 0);
    let read = add_uses(marked, pass.reads@, sampled, pass.reads@.len());
    lemma_add_uses(marked, pass.reads@, sampled, pass.reads@.len());
    lemma_add_uses_target(marked, pass.reads@, sampled, pass.reads@.len());
    let written = add_uses(read, pass.writes@, target, pass.writes@.len());
    lemma_add_uses(read, pass.writes@, target, pass.writes@.len());
    lemma_add_uses_target(read, pass.writes@, target, pass.writes@.len());
    let ds = match pass.depth_stencil_output {
        Some(h) => add_use(written, h, depth),
        None => written,
    };
    match pass.depth_stencil_output {
        Some(h) => {
            lemma_add_use(written, h, depth);
            lemma_add_use_target(written, h, depth);
        },
        None => {
            lemma_keeps_textures_refl(written.textures);
        },
    }
    if !ds.failed {
        lemma_release(ds, p, rs, rs.len());
    }
    assert(g.textures == ds.textures);
    assert forall|i: int| 0 <= i < g.textures.len() && #[trigger] has_usage(g.textures[i].usage.bits, 2u32) implies
        (i < st.textures.len() && has_usage(st.textures[i].usage.bits, 2u32))
        || exists|w: int| 0 <= w < pass.writes@.len()
            && g.textures[i].handle == #[trigger] chase(st.resources, pass.writes@[w]) by {
        assert(i < written.textures.len() && has_usage(written.textures[i].usage.bits, 2u32));
        assert(texture_kept(written.textures[i], ds.textures[i]));
        if !(i < read.textures.len() && has_usage(read.textures[i].usage.bits, 2u32)) {
            let w = choose|w: int| 0 <= w < pass.writes@.len()
                && written.textures[i].handle == #[trigger] chase(read.resources, pass.writes@[w]);
            lemma_chase_same_data(st.resources, marked.resources, pass.writes@[w]);
            assert(g.textures[i].handle == chase(st.resources, pass.writes@[w]));
        }
    }
}

/// After gathering the first `k` passes of `order`, a compiled texture with the
/// render-target usage either had it before, or is what a write of one of them stands for.
proof fn lemma_gather_targets<C>(st: TextureState, passes: Seq<RenderPass<C>>, order: Seq<usize>, k: nat)
    requires
        k <= order.len(),
        forall|j: int| 0 <= j < order.len() ==> (#[trigger] passes[order[j] as int]).wf(st.resources.len()),
    ensures
        forall|i: int| 0 <= i < gather(st, passes, order, k).textures.len()
            && #[trigger] has_usage(gather(st, passes, order, k).textures[i].usage.bits, 2u32) ==>
            (i < st.textures.len() && has_usage(st.textures[i].usage.bits, 2u32))
            || written_in(st.resources, passes, order, k as int, gather(st, passes, order, k).textures[i].handle),
    decreases k,
{
    if k > 0 {
        lemma_gather_targets(st, passes, order, (k - 1) as nat);
        lemma_gather_depth_stencil(st, passes, order, (k - 1) as nat);
        let s = gather(st, passes, order, (k - 1) as nat);
        let g = gather(st, passes, order, k);
        if !s.failed {
            let p = order[k - 1];
            assert(passes[order[k - 1] as int].wf(st.resources.len()));
            lemma_gather_pass(s, p, passes[p as int]);
            lemma_gather_pass_target(s, p, passes[p as int]);
            assert forall|i: int| 0 <= i < g.textures.len() && #[trigger] has_usage(g.textures[i].usage.bits, 2u32) implies
                (i < st.textures.len() && has_usage(st.textures[i].usage.bits, 2u32))
                || written_in(st.resources, passes, order, k as int, g.textures[i].handle) by {
                if i < s.textures.len() && has_usage(s.textures[i].usage.bits, 2u32) {
                    assert(texture_kept(s.textures[i], g.textures[i]));
                    if !(i < st.textures.len() && has_usage(st.textures[i].usage.bits, 2u32)) {
                        let (j, w) = choose|j: int, w: int|
                            0 <= j < k - 1 && 0 <= w < passes[order[j] as int].writes@.len()
                                && #[trigger] chase(st.resources, passes[order[j] as int].writes@[w]) == s.textures[i].handle;
                        assert(chase(st.resources, passes[order[j] as int].writes@[w]) == g.textures[i].handle);
                    }
                } else {
                    let w = choose|w: int| 0 <= w < passes[p as int].writes@.len()
                        && g.textures[i].handle == #[trigger] chase(s.resources, passes[p as int].writes@[w]);
                    lemma_chase_same_data(st.resources, s.resources, passes[p as int].writes@[w]);
                    assert(chase(st.resources, passes[order[k - 1] as int].writes@[w]) == g.textures[i].handle);
                }
            }
        } else {
            assert forall|i: int| 0 <= i < g.textures.len() && #[trigger] has_usage(g.textures[i].usage.bits, 2u32) implies
                (i < st.textures.len() && has_usage(st.textures[i].usage.bits, 2u32))
                || written_in(st.resources, passes, order, k as int, g.textures[i].handle) by {
                if !(i < st.textures.len() && has_usage(st.textures[i].usage.bits, 2u32)) {
                    let (j, w) = choose|j: int, w: int|
                        0 <= j < k - 1 && 0 <= w < passes[order[j] as int].writes@.len()
                            && #[trigger] chase(st.resources, passes[order[j] as int].writes@[w]) == s.textures[i].handle;
                    assert(chase(st.resources, passes[order[j] as int].writes@[w]) == g.textures[i].handle);
                }
            }
        }
    }
}

/// Compiling gives the render-target usage only to what a kept pass writes: every
/// compiled texture with that usage is the texture that some write of some compiled
/// pass stands for.
pub proof fn lemma_render_target_usage_comes_from_writes<C>(
    res: Seq<Resource>,
    passes: Seq<RenderPass<C>>,
    backbuffer: ResourceHandle,
    order: Seq<usize>,
    graph: CompiledFrameGraph<C>,
)
    requires
        compiled_as(Ok(graph), res, passes, backbuffer, order),
        forall|i: int| 0 <= i < passes.len() ==> (#[trigger] passes[i]).wf(res.len()),
        forall|k: int| 0 <= k < order.len() ==> #[trigger] order[k] < passes.len(),
    ensures
        forall|i: int| 0 <= i < graph.textures@.len()
            && #[trigger] has_usage(graph.textures@[i].usage.bits, texture_usage_bit(TextureUsageFlagBits::RenderTarget)) ==>
            exists|k: int, w: int|
                0 <= k < graph.passes@.len() && 0 <= w < passes[graph.passes@[k].pass_index as int].writes@.len()
                    && #[trigger] chase(res, passes[graph.passes@[k].pass_index as int].writes@[w]) == graph.textures@[i].handle,
{
    let st0 = TextureState { textures: Seq::empty(), pool: Seq::empty(), resources: res, failed: false };
    assert forall|j: int| 0 <= j < order.len() implies (#[trigger] passes[order[j] as int]).wf(st0.resources.len()) by {
        assert(order[j] < passes.len());
    }
    lemma_gather_targets(st0, passes, order, order.len());
    assert forall|i: int| 0 <= i < graph.textures@.len()
        && #[trigger] has_usage(graph.textures@[i].usage.bits, texture_usage_bit(TextureUsageFlagBits::RenderTarget)) implies
        exists|k: int, w: int|
            0 <= k < graph.passes@.len() && 0 <= w < passes[graph.passes@[k].pass_index as int].writes@.len()
                && #[trigger] chase(res, passes[graph.passes@[k].pass_index as int].writes@[w]) == graph.textures@[i].handle by {
        assert(has_usage(graph.textures@[i].usage.bits, 2u32));
        let (k, w) = choose|k: int, w: int|
            0 <= k < order.len() && 0 <= w < passes[order[k] as int].writes@.len()
                && #[trigger] chase(res, passes[order[k] as int].writes@[w]) == graph.textures@[i].handle;
        assert(graph.passes@[k].pass_index == order[k]);
        assert(chase(res, passes[graph.passes@[k].pass_index as int].writes@[w]) == graph.textures@[i].handle);
    }
}

/// Chasing a handle of a well-formed registry ends at a texture.
proof fn lemma_chase(res: Seq<Resource>, h: ResourceHandle)
    requires
        h.0 < res.len(),
        forall|i: int| 0 <= i < res.len() ==> crate::render_graph::registry::resource_ok(#[trigger] res[i], i),
    ensures
        chase(res, h).0 < res.len(),
        is_texture_in(res, chase(res, h)),
    decreases h.0,
{
    assert(crate::render_graph::registry::resource_ok(res[h.0 as int], h.0 as int));
    match res[h.0 as int].data {
        ResourceData::Proxy(p) => {
            lemma_chase(res, p);
        },
        _ => {},
    }
}

/// The texture that `h` stands for, through any chain of proxies.
fn chase_handle(registry: &ResourceRegistry, h: ResourceHandle) -> (res: ResourceHandle)
    requires
        registry.wf(),
        h.0 < registry.resources_view().len(),
    ensures
        res == chase(registry.resources_view(), h),
        res.0 < registry.resources_view().len(),
        is_texture_in(registry.resources_view(), res),
    decreases h.0,
{
    proof {
        lemma_chase(registry.resources_view(), h);
        assert(crate::render_graph::registry::resource_ok(registry.resources_view()[h.0 as int], h.0 as int));
    }
    match registry.resource(h).data {
        ResourceData::Proxy(p) => chase_handle(registry, p),
        _ => h,
    }
}

/// Compiled textures are made for distinct textures of the registry, and their sizes fit.
pub open spec fn textures_ok(textures: Seq<CompiledTexture>, res: Seq<Resource>) -> bool {
    &&& forall|i: int, j: int| 0 <= i < textures.len() && 0 <= j < textures.len() && i != j ==> #[trigger] textures[i].handle != #[trigger] textures[j].handle
    &&& forall|i: int| 0 <= i < textures.len() ==> (#[trigger] textures[i]).handle.0 < res.len()
    &&& forall|i: int| 0 <= i < textures.len() ==> (#[trigger] textures[i]).width * textures[i].height <= usize::MAX
    &&& forall|i: int| 0 <= i < textures.len() ==> compiled_size(#[trigger] textures[i]) <= usize::MAX
}

/// The position of the compiled texture made for `h`.
fn find_compiled(textures: &Vec<CompiledTexture>, h: ResourceHandle) -> (res: Option<usize>)
    requires
        forall|i: int, j: int| 0 <= i < textures@.len() && 0 <= j < textures@.len() && i != j ==> #[trigger] textures@[i].handle != #[trigger] textures@[j].handle,
    ensures
        match res {
            Some(i) => index_of(textures@, h) == Some(i as int) && i < textures@.len(),
            None => index_of(textures@, h) is None,
        },
{
    let mut i: usize = 0;
    while i < textures.len()
        invariant
            i <= textures.len(),
            forall|j: int| 0 <= j < i ==> textures@[j].handle != h,
            forall|a: int, b: int| 0 <= a < textures@.len() && 0 <= b < textures@.len() && a != b ==> #[trigger] textures@[a].handle != #[trigger] textures@[b].handle,
        decreases textures.len() - i,
    {
        if textures[i].handle == h {
            proof {
                let k = choose|k: int| 0 <= k < textures@.len() && textures@[k].handle == h;
                if k != i {
                    assert(textures@[k].handle != textures@[i as int].handle);
                }
            }
            return Some(i);
        }
        i = i + 1;
    }
    None
}

/// Whether some pooled texture that does not come from outside is at least `size` bytes.
fn can_alias_exec(textures: &Vec<CompiledTexture>, pool: &Vec<usize>, registry: &ResourceRegistry, size: usize) -> (res: bool)
    requires
        textures_ok(textures@, registry.resources_view()),
    ensures
        res == can_alias(TextureState { textures: textures@, pool: pool@, resources: registry.resources_view(), failed: false }, size as int),
{
    let ghost st = TextureState { textures: textures@, pool: pool@, resources: registry.resources_view(), failed: false };
    let mut k: usize = 0;
    while k < pool.len()
        invariant
            textures_ok(textures@, registry.resources_view()),
            st == (TextureState { textures: textures@, pool: pool@, resources: registry.resources_view(), failed: false }),
            k <= pool.len(),
            forall|l: int| 0 <= l < k ==> !(pool@[l] < textures@.len() && compiled_size(textures@[pool@[l] as int]) >= size
                && !registry.resources_view()[textures@[pool@[l] as int].handle.0 as int].external),
        decreases pool.len() - k,
    {
        let idx = pool[k];
        if idx < textures.len() {
            let t = textures[idx];
            let t_size = t.format.texture_size_in_bytes(t.width, t.height);
            if t_size >= size && !registry.is_external(t.handle) {
                return true;
            }
        }
        k = k + 1;
    }
    false
}

/// Records a use of `h` with usage `flag`; true when the texture could reuse a pooled
/// one, which compiling refuses.
fn add_use_exec(textures: &mut Vec<CompiledTexture>, pool: &Vec<usize>, registry: &ResourceRegistry, h: ResourceHandle, flag: TextureUsageFlagBits) -> (failed: bool)
    requires
        registry.wf(),
        h.0 < registry.resources_view().len(),
        textures_ok(old(textures)@, registry.resources_view()),
    ensures
        textures_ok(final(textures)@, registry.resources_view()),
        final(textures)@.len() >= old(textures)@.len(),
        (TextureState { textures: final(textures)@, pool: pool@, resources: registry.resources_view(), failed })
            == add_use(TextureState { textures: old(textures)@, pool: pool@, resources: registry.resources_view(), failed: false }, h, texture_usage_bit(flag)),
{
    let ghost st = TextureState { textures: textures@, pool: pool@, resources: registry.resources_view(), failed: false };
    let t = chase_handle(registry, h);
    let desc = registry.texture(t);
    proof {
        assert(crate::render_graph::registry::resource_ok(registry.resources_view()[t.0 as int], t.0 as int));
    }
    if !registry.is_external(t) {
        let size = desc.format.texture_size_in_bytes(desc.width, desc.height);
        if can_alias_exec(textures, pool, registry, size) {
            return true;
        }
    }
    match find_compiled(textures, t) {
        Some(i) => {
            let mut compiled = textures[i];
            compiled.usage.insert(flag);
            textures.set(i, compiled);
            proof {
                let ghost new = textures@;
                assert forall|a: int, b: int| 0 <= a < new.len() && 0 <= b < new.len() && a != b implies #[trigger] new[a].handle != #[trigger] new[b].handle by {
                    assert(new[a].handle == old(textures)@[a].handle && new[b].handle == old(textures)@[b].handle);
                }
                assert forall|a: int| 0 <= a < new.len() implies compiled_size(#[trigger] new[a]) <= usize::MAX by {
                    assert(compiled_size(new[a]) == compiled_size(old(textures)@[a]));
                }
                assert forall|a: int| 0 <= a < new.len() implies (#[trigger] new[a]).width * new[a].height <= usize::MAX by {
                    assert(new[a].width == old(textures)@[a].width && new[a].height == old(textures)@[a].height);
                }
            }
        },
        None => {
            let mut usage = TextureUsageFlags::empty();
            usage.insert(flag);
            textures.push(CompiledTexture {
                width: desc.width,
                height: desc.height,
                format: desc.format,
                usage,
                handle: t,
                alias_with: None,
            });
            proof {
                let ghost new = textures@;
                assert forall|a: int, b: int| 0 <= a < new.len() && 0 <= b < new.len() && a != b implies #[trigger] new[a].handle != #[trigger] new[b].handle by {
                    if a == new.len() - 1 {
                        assert(!(exists|i: int| 0 <= i < old(textures)@.len() && old(textures)@[i].handle == t));
                        assert(new[b] == old(textures)@[b]);
                    } else if b == new.len() - 1 {
                        assert(!(exists|i: int| 0 <= i < old(textures)@.len() && old(textures)@[i].handle == t));
                        assert(new[a] == old(textures)@[a]);
                    } else {
                        assert(new[a] == old(textures)@[a] && new[b] == old(textures)@[b]);
                    }
                }
                assert forall|a: int| 0 <= a < new.len() implies compiled_size(#[trigger] new[a]) <= usize::MAX by {
                    if a < old(textures)@.len() {
                        assert(new[a] == old(textures)@[a]);
                    } else {
                        assert(compiled_size(new[a]) == texture_size(desc));
                    }
                }
                assert forall|a: int| 0 <= a < new.len() implies (#[trigger] new[a]).width * new[a].height <= usize::MAX by {
                    if a < old(textures)@.len() {
                        assert(new[a] == old(textures)@[a]);
                    }
                }
                assert forall|a: int| 0 <= a < new.len() implies (#[trigger] new[a]).handle.0 < registry.resources_view().len() by {
                    if a < old(textures)@.len() {
                        assert(new[a] == old(textures)@[a]);
                    }
                }
            }
        },
    }
    false
}

/// Once gathering failed, further uses change nothing.
proof fn lemma_add_uses_failed(st: TextureState, hs: Seq<ResourceHandle>, bit: u32, k: nat)
    requires
        st.failed,
    ensures
        add_uses(st, hs, bit, k) == st,
    decreases k,
{
    if k > 0 {
        lemma_add_uses_failed(st, hs, bit, (k - 1) as nat);
    }
}

/// A failure stays: the uses after it change nothing.
proof fn lemma_add_uses_after_failure(st: TextureState, hs: Seq<ResourceHandle>, bit: u32, j: nat, k: nat)
    requires
        j <= k,
        add_uses(st, hs, bit, j).failed,
    ensures
        add_uses(st, hs, bit, k) == add_uses(st, hs, bit, j),
    decreases k - j,
{
    if j < k {
        lemma_add_uses_after_failure(st, hs, bit, j, (k - 1) as nat);
    }
}

/// Records the uses of `hs` with usage `flag`; true when compiling must fail.
fn add_uses_exec(textures: &mut Vec<CompiledTexture>, pool: &Vec<usize>, registry: &ResourceRegistry, hs: &Vec<ResourceHandle>, flag: TextureUsageFlagBits) -> (failed: bool)
    requires
        registry.wf(),
        forall|k: int| 0 <= k < hs@.len() ==> (#[trigger] hs@[k]).0 < registry.resources_view().len(),
        textures_ok(old(textures)@, registry.resources_view()),
    ensures
        textures_ok(final(textures)@, registry.resources_view()),
        final(textures)@.len() >= old(textures)@.len(),
        (TextureState { textures: final(textures)@, pool: pool@, resources: registry.resources_view(), failed })
            == add_uses(TextureState { textures: old(textures)@, pool: pool@, resources: registry.resources_view(), failed: false }, hs@, texture_usage_bit(flag), hs@.len()),
{
    let ghost st0 = TextureState { textures: textures@, pool: pool@, resources: registry.resources_view(), failed: false };
    let ghost bit = texture_usage_bit(flag);
    let mut k: usize = 0;
    while k < hs.len()
        invariant
            registry.wf(),
            forall|l: int| 0 <= l < hs@.len() ==> (#[trigger] hs@[l]).0 < registry.resources_view().len(),
            textures_ok(textures@, registry.resources_view()),
            textures@.len() >= old(textures)@.len(),
            st0 == (TextureState { textures: old(textures)@, pool: pool@, resources: registry.resources_view(), failed: false }),
            bit == texture_usage_bit(flag),
            k <= hs.len(),
            (TextureState { textures: textures@, pool: pool@, resources: registry.resources_view(), failed: false })
                == add_uses(st0, hs@, bit, k as nat),
        decreases hs.len() - k,
    {
        if add_use_exec(textures, pool, registry, hs[k], flag) {
            proof {
                lemma_add_uses_after_failure(st0, hs@, bit, (k + 1) as nat, hs@.len());
            }
            return true;
        }
        k = k + 1;
    }
    false
}

/// The resources a pass uses: its reads, its writes and its depth-stencil target.
fn resources_of<C>(pass: &RenderPass<C>) -> (res: Vec<ResourceHandle>)
    ensures
        res@ == pass_resources(*pass),
{
    let mut res: Vec<ResourceHandle> = Vec::new();
    let mut k: usize = 0;
    while k < pass.reads.len()
        invariant
            k <= pass.reads.len(),
            res@ == pass.reads@.subrange(0, k as int),
        decreases pass.reads.len() - k,
    {
        res.push(pass.reads[k]);
        k = k + 1;
        assert(res@ =~= pass.reads@.subrange(0, k as int));
    }
    let mut k: usize = 0;
    assert(pass.reads@.subrange(0, pass.reads@.len() as int) =~= pass.reads@);
    while k < pass.writes.len()
        invariant
            k <= pass.writes.len(),
            res@ == pass.reads@ + pass.writes@.subrange(0, k as int),
        decreases pass.writes.len() - k,
    {
        res.push(pass.writes[k]);
        k = k + 1;
        assert(res@ =~= pass.reads@ + pass.writes@.subrange(0, k as int));
    }
    assert(pass.writes@.subrange(0, pass.writes@.len() as int) =~= pass.writes@);
    match pass.depth_stencil_output {
        Some(ds) => {
            res.push(ds);
        },
        None => {},
    }
    assert(res@ =~= pass_resources(*pass));
    res
}

/// Gathers the textures of pass `p` (see `gather_pass`); true when compiling must fail.
fn gather_pass_exec<C>(textures: &mut Vec<CompiledTexture>, pool: &mut Vec<usize>, registry: &mut ResourceRegistry, p: usize, pass: &RenderPass<C>) -> (failed: bool)
    requires
        old(registry).wf(),
        pass.wf(old(registry).resources_view().len()),
        textures_ok(old(textures)@, old(registry).resources_view()),
        forall|k: int| 0 <= k < old(pool)@.len() ==> #[trigger] old(pool)@[k] < old(textures)@.len(),
    ensures
        final(registry).wf(),
        final(registry).resources_view().len() == old(registry).resources_view().len(),
        textures_ok(final(textures)@, final(registry).resources_view()),
        forall|k: int| 0 <= k < final(pool)@.len() ==> #[trigger] final(pool)@[k] < final(textures)@.len(),
        (TextureState { textures: final(textures)@, pool: final(pool)@, resources: final(registry).resources_view(), failed })
            == gather_pass(TextureState { textures: old(textures)@, pool: old(pool)@, resources: old(registry).resources_view(), failed: false }, p, *pass),
{
    let ghost st0 = TextureState { textures: textures@, pool: pool@, resources: registry.resources_view(), failed: false };
    let rs = resources_of(pass);
    let ghost len = registry.resources_view().len();
    proof {
        assert forall|k: int| 0 <= k < rs@.len() implies (#[trigger] rs@[k]).0 < len by {
            if k < pass.reads@.len() {
                assert(rs@[k] == pass.reads@[k]);
            } else if k < pass.reads@.len() + pass.writes@.len() {
                assert(rs@[k] == pass.writes@[k - pass.reads@.len()]);
            }
        }
    }
    let mut k: usize = 0;
    while k < rs.len()
        invariant
            registry.wf(),
            registry.resources_view().len() == len,
            forall|l: int| 0 <= l < rs@.len() ==> (#[trigger] rs@[l]).0 < len,
            k <= rs.len(),
            textures@ == st0.textures,
            pool@ == st0.pool,
            (TextureState { textures: textures@, pool: pool@, resources: registry.resources_view(), failed: false })
                == mark_uses(st0, p, rs@, k as nat),
        decreases rs.len() - k,
    {
        if registry.is_texture(rs[k]) {
            registry.set_last_pass_use(rs[k], p);
        }
        k = k + 1;
    }
    let ghost marked = TextureState { textures: textures@, pool: pool@, resources: registry.resources_view(), failed: false };
    proof {
        assert(textures_ok(textures@, registry.resources_view()));
    }
    if add_uses_exec(textures, pool, registry, &pass.reads, TextureUsageFlagBits::Sampled) {
        proof {
            let read = add_uses(marked, pass.reads@, texture_usage_bit(TextureUsageFlagBits::Sampled), pass.reads@.len());
            lemma_add_uses_failed(read, pass.writes@, texture_usage_bit(TextureUsageFlagBits::RenderTarget), pass.writes@.len());
        }
        return true;
    }
    if add_uses_exec(textures, pool, registry, &pass.writes, TextureUsageFlagBits::RenderTarget) {
        return true;
    }
    match pass.depth_stencil_output {
        Some(ds) => {
            if add_use_exec(textures, pool, registry, ds, TextureUsageFlagBits::DepthStencil) {
                return true;
            }
        },
        None => {},
    }
    let ghost gathered = TextureState { textures: textures@, pool: pool@, resources: registry.resources_view(), failed: false };
    let mut k: usize = 0;
    while k < rs.len()
        invariant
            registry.wf(),
            registry.resources_view().len() == len,
            forall|l: int| 0 <= l < rs@.len() ==> (#[trigger] rs@[l]).0 < len,
            textures_ok(textures@, registry.resources_view()),
            textures@ == gathered.textures,
            registry.resources_view() == gathered.resources,
            forall|l: int| 0 <= l < pool@.len() ==> #[trigger] pool@[l] < textures@.len(),
            k <= rs.len(),
            (TextureState { textures: textures@, pool: pool@, resources: registry.resources_view(), failed: false })
                == release(gathered, p, rs@, k as nat),
        decreases rs.len() - k,
    {
        let r = registry.resolve_handle(rs[k]);
        proof {
            assert(crate::render_graph::registry::resource_ok(registry.resources_view()[rs@[k as int].0 as int], rs@[k as int].0 as int));
        }
        if registry.is_texture(r) && registry.resource(r).last_pass_use == Some(p) {
            match find_compiled(textures, r) {
                Some(idx) => {
                    pool.push(idx);
                },
                None => {},
            }
        }
        k = k + 1;
    }
    false
}

/// The order, the textures and the pool that gathering the textures of the passes of
/// `order` gives, or `None` when a texture could reuse a pooled one.
fn gather_exec<C>(registry: &mut ResourceRegistry, passes: &Vec<RenderPass<C>>, order: &Vec<usize>) -> (res: Option<(Vec<CompiledTexture>, Vec<usize>)>)
    requires
        old(registry).wf(),
        forall|i: int| 0 <= i < passes@.len() ==> (#[trigger] passes@[i]).wf(old(registry).resources_view().len()),
        forall|k: int| 0 <= k < order@.len() ==> #[trigger] order@[k] < passes@.len(),
    ensures
        final(registry).wf(),
        final(registry).resources_view().len() == old(registry).resources_view().len(),
        ({
            let st = gather(
                TextureState { textures: Seq::empty(), pool: Seq::empty(), resources: old(registry).resources_view(), failed: false },
                passes@,
                order@,
                order@.len(),
            );
            match res {
                Some((textures, pool)) => !st.failed && textures@ == st.textures && pool@ == st.pool
                    && final(registry).resources_view() == st.resources,
                None => st.failed,
            }
        }),
        res matches Some((textures, pool)) ==> textures_ok(textures@, final(registry).resources_view()),
{
    let ghost st0 = TextureState { textures: Seq::empty(), pool: Seq::empty(), resources: registry.resources_view(), failed: false };
    let ghost len = registry.resources_view().len();
    let mut textures: Vec<CompiledTexture> = Vec::new();
    let mut pool: Vec<usize> = Vec::new();
    let mut k: usize = 0;
    while k < order.len()
        invariant
            registry.wf(),
            registry.resources_view().len() == len,
            len == old(registry).resources_view().len(),
            st0 == (TextureState { textures: Seq::empty(), pool: Seq::empty(), resources: old(registry).resources_view(), failed: false }),
            forall|i: int| 0 <= i < passes@.len() ==> (#[trigger] passes@[i]).wf(len),
            forall|l: int| 0 <= l < order@.len() ==> #[trigger] order@[l] < passes@.len(),
            textures_ok(textures@, registry.resources_view()),
            forall|l: int| 0 <= l < pool@.len() ==> #[trigger] pool@[l] < textures@.len(),
            k <= order.len(),
            (TextureState { textures: textures@, pool: pool@, resources: registry.resources_view(), failed: false })
                == gather(st0, passes@, order@, k as nat),
        decreases order.len() - k,
    {
        let p = order[k];
        if gather_pass_exec(&mut textures, &mut pool, registry, p, &passes[p]) {
            proof {
                lemma_gather_after_failure(st0, passes@, order@, (k + 1) as nat, order@.len());
            }
            return None;
        }
        k = k + 1;
    }
    Some((textures, pool))
}

/// A failure stays: the passes after it change nothing.
proof fn lemma_gather_after_failure<C>(st: TextureState, passes: Seq<RenderPass<C>>, order: Seq<usize>, j: nat, k: nat)
    requires
        j <= k,
        gather(st, passes, order, j).failed,
    ensures
        gather(st, passes, order, k) == gather(st, passes, order, j),
    decreases k - j,
{
    if j < k {
        lemma_gather_after_failure(st, passes, order, j, (k - 1) as nat);
    }
}

/// A render target (or depth-stencil target) of a compiled pass: the texture, what
/// happens to its contents at the start and end of the pass, and its clear value
/// (`None` for a color target means clearing to zero).
#[derive(Copy, Clone)]
pub struct CompiledPassRenderTarget<C> {
    pub texture: ResourceHandle,
    pub load_mode: RenderPassTextureLoadMode,
    pub store_mode: RenderPassTextureStoreMode,
    pub clear_value: Option<C>,
}

/// A transition of a resource from one state to another.
#[derive(Copy, Clone)]
pub struct Barrier {
    pub resource: ResourceHandle,
    pub src_state: ResourceState,
    pub dst_state: ResourceState,
}

/// A pass of a compiled graph: the position of the declared pass (to find its code),
/// its name, the transitions before and after it, its targets and its writes.
pub struct CompiledPass<C> {
    pub pass_index: usize,
    pub name: String,
    pub invalidate_barriers: Vec<Barrier>,
    pub flush_barriers: Vec<Barrier>,
    pub render_targets: Vec<CompiledPassRenderTarget<C>>,
    pub depth_stencil: Option<CompiledPassRenderTarget<C>>,
    pub writes: Vec<ResourceHandle>,
}

/// The render targets of the first `k` writes of `pass`: each write that resolves to a
/// texture, preserved if the pass also reads it, else cleared if it has a clear value,
/// else discarded.
pub open spec fn render_targets_of<C>(res: Seq<Resource>, pass: RenderPass<C>, k: nat) -> Seq<CompiledPassRenderTarget<C>>
    decreases k,
{
    if k == 0 {
        Seq::empty()
    } else {
        let s = render_targets_of(res, pass, (k - 1) as nat);
        let output = resolved_in(res, pass.writes@[k - 1]);
        if is_texture_in(res, output) {
            let clear_value = pass.writes_clear_color@[k - 1];
            let load_mode = if pass.reads@.contains(output) {
                RenderPassTextureLoadMode::Preserve
            } else if clear_value is Some {
                RenderPassTextureLoadMode::Clear
            } else {
                RenderPassTextureLoadMode::Discard
            };
            s.push(CompiledPassRenderTarget { texture: output, load_mode, store_mode: RenderPassTextureStoreMode::Preserve, clear_value })
        } else {
            s
        }
    }
}

/// The depth-stencil target of `pass`: its depth-stencil output, cleared.
pub open spec fn depth_stencil_of<C>(pass: RenderPass<C>) -> Option<CompiledPassRenderTarget<C>> {
    match pass.depth_stencil_output {
        Some(output) => Some(
            CompiledPassRenderTarget {
                texture: output,
                load_mode: RenderPassTextureLoadMode::Clear,
                store_mode: RenderPassTextureStoreMode::Preserve,
                clear_value: pass.depth_stencil_clear_value,
            },
        ),
        None => None,
    }
}

/// The transitions to render-target writing that the first `k` of `writes` need from
/// the states `states`, and the states after them.
pub open spec fn write_barriers(res: Seq<Resource>, states: Seq<ResourceState>, writes: Seq<ResourceHandle>, k: nat) -> (Seq<Barrier>, Seq<ResourceState>)
    decreases k,
{
    if k == 0 {
        (Seq::empty(), states)
    } else {
        let (barriers, st) = write_barriers(res, states, writes, (k - 1) as nat);
        let output = resolved_in(res, writes[k - 1]);
        let src_state = st[output.0 as int];
        if src_state != ResourceState::RenderTargetWrite {
            (
                barriers.push(Barrier { resource: output, src_state, dst_state: ResourceState::RenderTargetWrite }),
                st.update(output.0 as int, ResourceState::RenderTargetWrite),
            )
        } else {
            (barriers, st)
        }
    }
}

/// The transitions before each of the first `k` passes of `order`, and the states after.
pub open spec fn pass_barriers<C>(
    res: Seq<Resource>,
    states: Seq<ResourceState>,
    passes: Seq<RenderPass<C>>,
    order: Seq<usize>,
    k: nat,
) -> (Seq<Seq<Barrier>>, Seq<ResourceState>)
    decreases k,
{
    if k == 0 {
        (Seq::empty(), states)
    } else {
        let (barriers, st) = pass_barriers(res, states, passes, order, (k - 1) as nat);
        let writes = passes[order[k - 1] as int].writes@;
        let (pass_barriers, next) = write_barriers(res, st, writes, writes.len());
        (barriers.push(pass_barriers), next)
    }
}

/// The states resources start in: the backbuffer is presented, the others common.
pub open spec fn initial_states(len: nat, backbuffer: ResourceHandle) -> Seq<ResourceState> {
    Seq::new(len, |i: int| if i == backbuffer.0 { ResourceState::Present } else { ResourceState::Common })
}

/// The render targets of `pass`, for the resources `registry` holds.
fn render_targets_exec<C: Copy>(registry: &ResourceRegistry, pass: &RenderPass<C>) -> (res: Vec<CompiledPassRenderTarget<C>>)
    requires
        registry.wf(),
        pass.wf(registry.resources_view().len()),
    ensures
        res@ == render_targets_of(registry.resources_view(), *pass, pass.writes@.len()),
{
    let mut targets: Vec<CompiledPassRenderTarget<C>> = Vec::new();
    let mut i: usize = 0;
    while i < pass.writes.len()
        invariant
            registry.wf(),
            pass.wf(registry.resources_view().len()),
            i <= pass.writes.len(),
            targets@ == render_targets_of(registry.resources_view(), *pass, i as nat),
        decreases pass.writes.len() - i,
    {
        let output = registry.resolve_handle(pass.writes[i]);
        proof {
            assert(crate::render_graph::registry::resource_ok(registry.resources_view()[pass.writes@[i as int].0 as int], pass.writes@[i as int].0 as int));
        }
        if registry.is_texture(output) {
            let clear_value = pass.writes_clear_color[i];
            let load_mode = if holds_handle(&pass.reads, output) {
                RenderPassTextureLoadMode::Preserve
            } else if clear_value.is_some() {
                RenderPassTextureLoadMode::Clear
            } else {
                RenderPassTextureLoadMode::Discard
            };
            targets.push(CompiledPassRenderTarget {
                texture: output,
                load_mode,
                store_mode: RenderPassTextureStoreMode::Preserve,
                clear_value,
            });
        }
        i = i + 1;
    }
    targets
}

/// The transitions to render-target writing that `writes` need from `states`, which
/// move on to the states after them.
fn write_barriers_exec(registry: &ResourceRegistry, states: &mut Vec<ResourceState>, writes: &Vec<ResourceHandle>) -> (res: Vec<Barrier>)
    requires
        registry.wf(),
        old(states)@.len() == registry.resources_view().len(),
        forall|k: int| 0 <= k < writes@.len() ==> (#[trigger] writes@[k]).0 < registry.resources_view().len(),
    ensures
        (res@, final(states)@) == write_barriers(registry.resources_view(), old(states)@, writes@, writes@.len()),
        final(states)@.len() == old(states)@.len(),
{
    let mut barriers: Vec<Barrier> = Vec::new();
    let mut k: usize = 0;
    while k < writes.len()
        invariant
            registry.wf(),
            states@.len() == registry.resources_view().len(),
            forall|l: int| 0 <= l < writes@.len() ==> (#[trigger] writes@[l]).0 < registry.resources_view().len(),
            k <= writes.len(),
            (barriers@, states@) == write_barriers(registry.resources_view(), old(states)@, writes@, k as nat),
        decreases writes.len() - k,
    {
        let output = registry.resolve_handle(writes[k]);
        proof {
            assert(crate::render_graph::registry::resource_ok(registry.resources_view()[writes@[k as int].0 as int], writes@[k as int].0 as int));
        }
        let src_state = states[output.0];
        if src_state != ResourceState::RenderTargetWrite {
            barriers.push(Barrier { resource: output, src_state, dst_state: ResourceState::RenderTargetWrite });
            states.set(output.0, ResourceState::RenderTargetWrite);
        }
        k = k + 1;
    }
    barriers
}

/// Why a frame graph cannot be compiled.
#[derive(Copy, Clone, PartialEq, Eq, Debug)]
pub enum CompileError {
    /// No pass writes the backbuffer.
    NoPassWritesBackbuffer,
    /// A texture could reuse the memory of one no longer used, which is not implemented.
    AliasingNotImplemented,
}

/// A compiled frame graph: the resources (with their last use), the passes to run in
/// order, and the textures to create.
pub struct CompiledFrameGraph<C> {
    pub resource_registry: ResourceRegistry,
    pub passes: Vec<CompiledPass<C>>,
    pub textures: Vec<CompiledTexture>,
}

impl<C> CompiledFrameGraph<C> {
    /// The position of the compiled texture made for `handle`.
    pub fn texture_index(&self, handle: ResourceHandle) -> (res: Option<usize>)
        requires
            forall|i: int, j: int| 0 <= i < self.textures@.len() && 0 <= j < self.textures@.len() && i != j ==> #[trigger] self.textures@[i].handle != #[trigger] self.textures@[j].handle,
        ensures
            match res {
                Some(i) => index_of(self.textures@, handle) == Some(i as int) && i < self.textures@.len(),
                None => index_of(self.textures@, handle) is None,
            },
    {
        find_compiled(&self.textures, handle)
    }
}

/// `graph` is what compiling the passes `passes` over the resources `res` for the
/// backbuffer `backbuffer` gives, with `order` the order of the kept passes.
pub open spec fn compiled_as<C>(
    result: Result<CompiledFrameGraph<C>, CompileError>,
    res: Seq<Resource>,
    passes: Seq<RenderPass<C>>,
    backbuffer: ResourceHandle,
    order: Seq<usize>,
) -> bool {
    let gathered = gather(TextureState { textures: Seq::empty(), pool: Seq::empty(), resources: res, failed: false }, passes, order, order.len());
    let bb = resolved_in(res, backbuffer);
    let (barriers, states) = pass_barriers(gathered.resources, initial_states(res.len(), bb), passes, order, order.len());
    match result {
        Err(CompileError::AliasingNotImplemented) => gathered.failed,
        Err(CompileError::NoPassWritesBackbuffer) => !gathered.failed && order.len() == 0,
        Ok(graph) => {
            &&& !gathered.failed
            &&& order.len() > 0
            &&& graph.resource_registry.resources_view() == gathered.resources
            &&& graph.textures@ == gathered.textures
            &&& graph.passes@.len() == order.len()
            &&& forall|k: int| 0 <= k < order.len() ==> {
                let compiled = #[trigger] graph.passes@[k];
                let pass = passes[order[k] as int];
                &&& compiled.pass_index == order[k]
                &&& compiled.name@ == pass.name@
                &&& compiled.render_targets@ == render_targets_of(gathered.resources, pass, pass.writes@.len())
                &&& compiled.depth_stencil == depth_stencil_of(pass)
                &&& compiled.writes@ == pass.writes@
                &&& compiled.invalidate_barriers@ == barriers[k]
                &&& compiled.flush_barriers@ == if k == order.len() - 1 {
                    seq![Barrier { resource: bb, src_state: states[bb.0 as int], dst_state: ResourceState::Present }]
                } else {
                    Seq::empty()
                }
            }
        },
    }
}

/// Compiling keeps every pass that is needed: every pass that writes the backbuffer is
/// among the compiled passes, and so is every pass that writes a resource that a
/// compiled pass reads.
pub proof fn lemma_compiled_passes_keep_needed_passes<C>(
    res: Seq<Resource>,
    passes: Seq<RenderPass<C>>,
    backbuffer: ResourceHandle,
    order: Seq<usize>,
    graph: CompiledFrameGraph<C>,
)
    requires
        culled_order(passes, backbuffer, order),
        compiled_as(Ok(graph), res, passes, backbuffer, order),
        passes.len() <= usize::MAX,
    ensures
        forall|i: int| 0 <= i < passes.len() && #[trigger] passes[i].writes@.contains(backbuffer) ==>
            exists|k: int| 0 <= k < graph.passes@.len() && #[trigger] graph.passes@[k].pass_index == i,
        forall|k: int, r: ResourceHandle, q: int|
            #![trigger graph.passes@[k], passes[graph.passes@[k].pass_index as int].reads@.contains(r), passes[q].writes@.contains(r)]
            0 <= k < graph.passes@.len() && passes[graph.passes@[k].pass_index as int].reads@.contains(r)
                && 0 <= q < passes.len() && passes[q].writes@.contains(r) ==>
            exists|k2: int| 0 <= k2 < graph.passes@.len() && #[trigger] graph.passes@[k2].pass_index == q,
{
    lemma_culled_order_keeps_needed_passes(passes, backbuffer, order);
    assert forall|i: int| 0 <= i < passes.len() && #[trigger] passes[i].writes@.contains(backbuffer) implies
        exists|k: int| 0 <= k < graph.passes@.len() && #[trigger] graph.passes@[k].pass_index == i by {
        assert(order.contains(i as usize));
        let k = choose|k: int| 0 <= k < order.len() && order[k] == i as usize;
        assert(graph.passes@[k].pass_index == order[k]);
    }
    assert forall|k: int, r: ResourceHandle, q: int|
        0 <= k < graph.passes@.len() && passes[graph.passes@[k].pass_index as int].reads@.contains(r)
            && 0 <= q < passes.len() && passes[q].writes@.contains(r) implies
        exists|k2: int| 0 <= k2 < graph.passes@.len() && #[trigger] graph.passes@[k2].pass_index == q by {
        let p = graph.passes@[k].pass_index;
        assert(p == order[k]);
        assert(order.contains(p));
        assert(passes[p as int].reads@.contains(r));
        assert(order.contains(q as usize));
        let k2 = choose|k2: int| 0 <= k2 < order.len() && order[k2] == q as usize;
        assert(graph.passes@[k2].pass_index == order[k2]);
    }
}

/// Compiles the passes over the resources of `registry` for the backbuffer `backbuffer`.
pub fn compile_passes<C: Copy>(registry: ResourceRegistry, passes: Vec<RenderPass<C>>, backbuffer: ResourceHandle) -> (res: Result<CompiledFrameGraph<C>, CompileError>)
    requires
        registry.wf(),
        forall|i: int| 0 <= i < passes@.len() ==> (#[trigger] passes@[i]).wf(registry.resources_view().len()),
        backbuffer.0 < registry.resources_view().len(),
    ensures
        exists|order: Seq<usize>| culled_order(passes@, backbuffer, order) && compiled_as(res, registry.resources_view(), passes@, backbuffer, order),
{
    let mut registry = registry;
    let ghost res0 = registry.resources_view();
    let bb = registry.resolve_handle(backbuffer);
    proof {
        assert(crate::render_graph::registry::resource_ok(res0[backbuffer.0 as int], backbuffer.0 as int));
    }
    let order = cull_passes(&passes, backbuffer);
    let gathered = gather_exec(&mut registry, &passes, &order);
    let (textures, _pool) = match gathered {
        Some(found) => found,
        None => {
            return Err(CompileError::AliasingNotImplemented);
        },
    };
    if order.len() == 0 {
        return Err(CompileError::NoPassWritesBackbuffer);
    }
    let n = registry.len();
    let mut states: Vec<ResourceState> = Vec::new();
    let mut i: usize = 0;
    while i < n
        invariant
            n == registry.resources_view().len(),
            i <= n,
            states@ == initial_states(n as nat, bb).subrange(0, i as int),
        decreases n - i,
    {
        states.push(if i == bb.0 { ResourceState::Present } else { ResourceState::Common });
        i = i + 1;
        assert(states@ =~= initial_states(n as nat, bb).subrange(0, i as int));
    }
    assert(states@ =~= initial_states(n as nat, bb));
    let ghost gathered_res = registry.resources_view();
    let mut compiled: Vec<CompiledPass<C>> = Vec::new();
    let mut k: usize = 0;
    while k < order.len()
        invariant
            registry.wf(),
            registry.resources_view() == gathered_res,
            gathered_res.len() == res0.len(),
            n == res0.len(),
            forall|i: int| 0 <= i < passes@.len() ==> (#[trigger] passes@[i]).wf(res0.len()),
            forall|l: int| 0 <= l < order@.len() ==> #[trigger] order@[l] < passes@.len(),
            states@.len() == n,
            k <= order.len(),
            compiled@.len() == k,
            (Seq::new(k as nat, |l: int| compiled@[l].invalidate_barriers@), states@)
                == pass_barriers(gathered_res, initial_states(n as nat, bb), passes@, order@, k as nat),
            forall|l: int| 0 <= l < k ==> {
                let c = #[trigger] compiled@[l];
                let pass = passes@[order@[l] as int];
                &&& c.pass_index == order@[l]
                &&& c.name@ == pass.name@
                &&& c.render_targets@ == render_targets_of(gathered_res, pass, pass.writes@.len())
                &&& c.depth_stencil == depth_stencil_of(pass)
                &&& c.writes@ == pass.writes@
                &&& c.flush_barriers@ == Seq::<Barrier>::empty()
            },
        decreases order.len() - k,
    {
        let p = order[k];
        let pass = &passes[p];
        let render_targets = render_targets_exec(&registry, pass);
        let depth_stencil = match pass.depth_stencil_output {
            Some(output) => Some(CompiledPassRenderTarget {
                texture: output,
                load_mode: RenderPassTextureLoadMode::Clear,
                store_mode: RenderPassTextureStoreMode::Preserve,
                clear_value: pass.depth_stencil_clear_value,
            }),
            None => None,
        };
        let ghost states_before = states@;
        let invalidate_barriers = write_barriers_exec(&registry, &mut states, &pass.writes);
        let ghost before = compiled@;
        compiled.push(CompiledPass {
            pass_index: p,
            name: pass.name.clone(),
            invalidate_barriers,
            flush_barriers: Vec::new(),
            render_targets,
            depth_stencil,
            writes: pass.writes.clone(),
        });
        proof {
            assert(Seq::new((k + 1) as nat, |l: int| compiled@[l].invalidate_barriers@)
                =~= Seq::new(k as nat, |l: int| before[l].invalidate_barriers@).push(compiled@[k as int].invalidate_barriers@));
            assert(Seq::new(k as nat, |l: int| before[l].invalidate_barriers@) == Seq::new(k as nat, |l: int| compiled@[l].invalidate_barriers@)) by {
                assert(Seq::new(k as nat, |l: int| before[l].invalidate_barriers@) =~= Seq::new(k as nat, |l: int| compiled@[l].invalidate_barriers@));
            }
            assert forall|l: int| 0 <= l < k + 1 implies {
                let c = #[trigger] compiled@[l];
                let pass = passes@[order@[l] as int];
                &&& c.pass_index == order@[l]
                &&& c.name@ == pass.name@
                &&& c.render_targets@ == render_targets_of(gathered_res, pass, pass.writes@.len())
                &&& c.depth_stencil == depth_stencil_of(pass)
                &&& c.writes@ == pass.writes@
                &&& c.flush_barriers@ == Seq::<Barrier>::empty()
            } by {
                if l < k {
                    assert(compiled@[l] == before[l]);
                }
            }
        }
        k = k + 1;
    }
    let last = compiled.len() - 1;
    let src_state = states[bb.0];
    let mut last_pass = compiled.remove(last);
    last_pass.flush_barriers.push(Barrier { resource: bb, src_state, dst_state: ResourceState::Present });
    let ghost before_last = compiled@;
    compiled.push(last_pass);
    let result = CompiledFrameGraph { resource_registry: registry, passes: compiled, textures };
    proof {
        let r: Result<CompiledFrameGraph<C>, CompileError> = Ok(result);
        assert(compiled_as(r, res0, passes@, backbuffer, order@)) by {
            assert forall|k: int| 0 <= k < order@.len() implies result.passes@[k].invalidate_barriers@
                == pass_barriers(gathered_res, initial_states(res0.len(), bb), passes@, order@, order@.len()).0[k] by {
                if k < last {
                    assert(result.passes@[k] == before_last[k]);
                }
            }
        }
    }
    Ok(result)
}

} // verus!
