//! User-interface values: properties, visibility, and the batching of draw commands.
use vstd::prelude::*;

verus! {

/// A property, bound to a constant.
pub enum Property<T> {
    Constant(T),
}

impl<T> Property<T> {
    /// A property bound to `constant`.
    pub fn new_constant(constant: T) -> (res: Self)
        ensures
            res == Property::Constant(constant),
    {
        Property::Constant(constant)
    }

    /// The property's value.
    pub fn get(&self) -> (res: &T)
        ensures
            *self == Property::Constant(*res),
    {
        match self {
            Property::Constant(value) => value,
        }
    }
}

impl<T: Default> Default for Property<T> {
    /// A property bound to `T`'s default value.
    fn default() -> (res: Self)
        ensures
            res matches Property::Constant(value) && call_ensures(T::default, (), value),
    {
        Property::Constant(T::default())
    }
}

impl<T> From<T> for Property<T> {
    fn from(value: T) -> (res: Self)
        ensures
            res == Property::Constant(value),
    {
        Property::Constant(value)
    }
}

impl<T> vstd::std_specs::convert::FromSpecImpl<T> for Property<T> {
    open spec fn obeys_from_spec() -> bool {
        true
    }

    open spec fn from_spec(v: T) -> Self {
        Property::Constant(v)
    }
}

/// Whether a widget is shown.
#[derive(Copy, Clone, PartialEq, Eq, Debug)]
pub enum Visibility {
    Hidden,
    /// Like hidden, but takes no space.
    Collapsed,
    Visible,
}

} // verus!

verus! {

/// Where a draw command's vertices and indices lie in the draw context's buffers.
#[derive(Copy, Clone, Debug)]
pub struct CommandRange {
    pub vertices_start_idx: usize,
    pub vertices_count: usize,
    pub indices_start_idx: usize,
    pub indices_count: usize,
}

/// The commands drawn together: how many vertices and indices they have, and where
/// they start in the shared vertex and index buffers.
#[derive(Copy, Clone, PartialEq, Eq, Structural, Debug)]
pub struct DrawCommandBatch {
    pub vertex_count: usize,
    pub index_count: usize,
    pub base_vertex_location: usize,
    pub base_index_location: usize,
}

/// The vertices of the first `k` commands of `group`.
pub open spec fn group_vertices(commands: Seq<CommandRange>, group: Seq<usize>, k: nat) -> nat
    decreases k,
{
    if k == 0 || k > group.len() {
        0
    } else {
        group_vertices(commands, group, (k - 1) as nat) + commands[group[k - 1] as int].vertices_count as nat
    }
}

/// The indices of the first `k` commands of `group`.
pub open spec fn group_indices(commands: Seq<CommandRange>, group: Seq<usize>, k: nat) -> nat
    decreases k,
{
    if k == 0 || k > group.len() {
        0
    } else {
        group_indices(commands, group, (k - 1) as nat) + commands[group[k - 1] as int].indices_count as nat
    }
}

/// The vertices of the first `g` groups.
pub open spec fn groups_vertices(commands: Seq<CommandRange>, sorted: Seq<Seq<usize>>, g: nat) -> nat
    decreases g,
{
    if g == 0 || g > sorted.len() {
        0
    } else {
        groups_vertices(commands, sorted, (g - 1) as nat) + group_vertices(commands, sorted[g - 1], sorted[g - 1].len())
    }
}

/// The indices of the first `g` groups.
pub open spec fn groups_indices(commands: Seq<CommandRange>, sorted: Seq<Seq<usize>>, g: nat) -> nat
    decreases g,
{
    if g == 0 || g > sorted.len() {
        0
    } else {
        groups_indices(commands, sorted, (g - 1) as nat) + group_indices(commands, sorted[g - 1], sorted[g - 1].len())
    }
}

/// The indices of command `c`, each moved up by `offset` vertices.
pub open spec fn rebased(indices: Seq<u16>, c: CommandRange, offset: nat) -> Seq<u16> {
    Seq::new(c.indices_count as nat, |j: int| (indices[c.indices_start_idx + j] + offset) as u16)
}

/// The indices of the first `k` commands of `group`, each command's moved up by the
/// vertices of the commands before it in the group.
pub open spec fn group_out(commands: Seq<CommandRange>, indices: Seq<u16>, group: Seq<usize>, k: nat) -> Seq<u16>
    decreases k,
{
    if k == 0 || k > group.len() {
        Seq::empty()
    } else {
        group_out(commands, indices, group, (k - 1) as nat)
            + rebased(indices, commands[group[k - 1] as int], group_vertices(commands, group, (k - 1) as nat))
    }
}

/// The indices of the first `g` groups, one after the other.
pub open spec fn groups_out(commands: Seq<CommandRange>, indices: Seq<u16>, sorted: Seq<Seq<usize>>, g: nat) -> Seq<u16>
    decreases g,
{
    if g == 0 || g > sorted.len() {
        Seq::empty()
    } else {
        groups_out(commands, indices, sorted, (g - 1) as nat) + group_out(commands, indices, sorted[g - 1], sorted[g - 1].len())
    }
}

/// The batch of group `g`.
pub open spec fn batch_of(commands: Seq<CommandRange>, sorted: Seq<Seq<usize>>, g: int) -> DrawCommandBatch {
    DrawCommandBatch {
        vertex_count: group_vertices(commands, sorted[g], sorted[g].len()) as usize,
        index_count: group_indices(commands, sorted[g], sorted[g].len()) as usize,
        base_vertex_location: groups_vertices(commands, sorted, g as nat) as usize,
        base_index_location: groups_indices(commands, sorted, g as nat) as usize,
    }
}

/// Every command of every group is a command, and its indices lie in `indices`.
pub open spec fn batches_in_bounds(commands: Seq<CommandRange>, indices: Seq<u16>, sorted: Seq<Seq<usize>>) -> bool {
    &&& forall|g: int, k: int| 0 <= g < sorted.len() && 0 <= k < sorted[g].len() ==> #[trigger] sorted[g][k] < commands.len()
    &&& forall|i: int| 0 <= i < commands.len() ==>
        (#[trigger] commands[i]).indices_start_idx + commands[i].indices_count <= indices.len()
}

/// The counts fit: the vertex and index totals fit in a `usize`, and every rebased
/// index fits in a `u16`.
pub open spec fn batches_fit(commands: Seq<CommandRange>, indices: Seq<u16>, sorted: Seq<Seq<usize>>) -> bool {
    &&& groups_vertices(commands, sorted, sorted.len()) <= usize::MAX
    &&& groups_indices(commands, sorted, sorted.len()) <= usize::MAX
    &&& forall|g: int, k: int, j: int| 0 <= g < sorted.len() && 0 <= k < sorted[g].len()
        && 0 <= j < commands[sorted[g][k] as int].indices_count ==>
        group_vertices(commands, sorted[g], k as nat) + #[trigger] indices[commands[#[trigger] sorted[g][k] as int].indices_start_idx + j] <= u16::MAX
}

proof fn lemma_group_monotone(commands: Seq<CommandRange>, group: Seq<usize>, k: nat, l: nat)
    requires
        k <= l <= group.len(),
    ensures
        group_vertices(commands, group, k) <= group_vertices(commands, group, l),
        group_indices(commands, group, k) <= group_indices(commands, group, l),
    decreases l - k,
{
    if k < l {
        lemma_group_monotone(commands, group, k, (l - 1) as nat);
    }
}

proof fn lemma_groups_monotone(commands: Seq<CommandRange>, sorted: Seq<Seq<usize>>, g: nat, h: nat)
    requires
        g <= h <= sorted.len(),
    ensures
        groups_vertices(commands, sorted, g) <= groups_vertices(commands, sorted, h),
        groups_indices(commands, sorted, g) <= groups_indices(commands, sorted, h),
    decreases h - g,
{
    if g < h {
        lemma_groups_monotone(commands, sorted, g, (h - 1) as nat);
    }
}

/// Plans the batches of the sorted groups of commands: one batch per group, whose counts
/// are the sums over its commands and whose base locations are the sums over the
/// groups before it; and the index buffer, each command's indices moved up by the
/// vertices of the commands before it in its group.
pub fn plan_batches(commands: &Vec<CommandRange>, indices: &Vec<u16>, sorted: &Vec<Vec<usize>>) -> (res: (Vec<DrawCommandBatch>, Vec<u16>))
    requires
        batches_in_bounds(commands@, indices@, sorted@.map_values(|v: Vec<usize>| v@)),
        batches_fit(commands@, indices@, sorted@.map_values(|v: Vec<usize>| v@)),
    ensures
        res.0@.len() == sorted@.len(),
        forall|g: int| 0 <= g < sorted@.len() ==> #[trigger] res.0@[g] == batch_of(commands@, sorted@.map_values(|v: Vec<usize>| v@), g),
        res.1@ == groups_out(commands@, indices@, sorted@.map_values(|v: Vec<usize>| v@), sorted@.len()),
{
    let ghost groups = sorted@.map_values(|v: Vec<usize>| v@);
    let ghost cs = commands@;
    let indices_len = indices.len();
    let mut batches: Vec<DrawCommandBatch> = Vec::new();
    let mut out: Vec<u16> = Vec::new();
    let mut vertex_idx: usize = 0;
    let mut index_idx: usize = 0;
    let mut g: usize = 0;
    while g < sorted.len()
        invariant
            groups == sorted@.map_values(|v: Vec<usize>| v@),
            cs == commands@,
            batches_in_bounds(cs, indices@, groups),
            batches_fit(cs, indices@, groups),
            g <= sorted@.len(),
            batches@.len() == g,
            indices_len == indices@.len(),
            forall|h: int| 0 <= h < g ==> #[trigger] batches@[h] == batch_of(cs, groups, h),
            vertex_idx == groups_vertices(cs, groups, g as nat),
            index_idx == groups_indices(cs, groups, g as nat),
            out@ == groups_out(cs, indices@, groups, g as nat),
        decreases sorted@.len() - g,
    {
        let group = &sorted[g];
        let ghost gs = groups[g as int];
        assert(gs == group@);
        proof {
            lemma_groups_monotone(cs, groups, (g + 1) as nat, groups.len());
        }
        let mut vertex_count: usize = 0;
        let mut index_count: usize = 0;
        let ghost out0 = out@;
        let mut k: usize = 0;
        while k < group.len()
            invariant
                groups == sorted@.map_values(|v: Vec<usize>| v@),
                cs == commands@,
                batches_in_bounds(cs, indices@, groups),
                batches_fit(cs, indices@, groups),
                g < sorted@.len(),
                gs == groups[g as int],
                gs == group@,
                k <= group@.len(),
                vertex_count == group_vertices(cs, gs, k as nat),
                index_count == group_indices(cs, gs, k as nat),
                indices_len == indices@.len(),
                vertex_idx + group_vertices(cs, gs, gs.len()) <= usize::MAX,
                index_idx + group_indices(cs, gs, gs.len()) <= usize::MAX,
                out@ == out0 + group_out(cs, indices@, gs, k as nat),
            decreases group@.len() - k,
        {
            let c = commands[group[k]];
            proof {
                assert(gs[k as int] < cs.len());
                assert(c == cs[gs[k as int] as int]);
                assert(c.indices_start_idx + c.indices_count <= indices@.len());
                lemma_group_monotone(cs, gs, (k + 1) as nat, gs.len());
            }
            let ghost out1 = out@;
            let mut j: usize = 0;
            while j < c.indices_count
                invariant
                    groups == sorted@.map_values(|v: Vec<usize>| v@),
                    cs == commands@,
                    batches_fit(cs, indices@, groups),
                    g < sorted@.len(),
                    gs == groups[g as int],
                    k < gs.len(),
                    c == cs[gs[k as int] as int],
                    c.indices_start_idx + c.indices_count <= indices@.len(),
                    indices_len == indices@.len(),
                    vertex_count == group_vertices(cs, gs, k as nat),
                    j <= c.indices_count,
                    out@ == out1 + rebased(indices@, c, vertex_count as nat).take(j as int),
                decreases c.indices_count - j,
            {
                let index = indices[c.indices_start_idx + j];
                proof {
                    assert(group_vertices(cs, groups[g as int], k as nat) + indices@[cs[groups[g as int][k as int] as int].indices_start_idx + j] <= u16::MAX);
                }
                out.push((vertex_count as u16) + index);
                j = j + 1;
                assert(out@ =~= out1 + rebased(indices@, c, vertex_count as nat).take(j as int));
            }
            assert(rebased(indices@, c, vertex_count as nat).take(j as int) =~= rebased(indices@, c, vertex_count as nat));
            vertex_count = vertex_count + c.vertices_count;
            index_count = index_count + c.indices_count;
            k = k + 1;
            assert(out@ =~= out0 + group_out(cs, indices@, gs, k as nat));
        }
        batches.push(DrawCommandBatch {
            vertex_count,
            index_count,
            base_vertex_location: vertex_idx,
            base_index_location: index_idx,
        });
        vertex_idx = vertex_idx + vertex_count;
        index_idx = index_idx + index_count;
        g = g + 1;
        assert(out@ =~= groups_out(cs, indices@, groups, g as nat));
    }
    (batches, out)
}

/// Where the vertices of one command go: `count` vertices from `src_start` in the draw
/// context's vertices to `dst_start` in the shared vertex buffer.
#[derive(Copy, Clone, PartialEq, Eq, Structural, Debug)]
pub struct VertexCopy {
    pub src_start: usize,
    pub dst_start: usize,
    pub count: usize,
}

/// The vertex copy of command `k` of group `g`: its vertices go right after those of the
/// groups before and of the commands before it in its group.
pub open spec fn vertex_copy_of(commands: Seq<CommandRange>, sorted: Seq<Seq<usize>>, g: int, k: int) -> VertexCopy {
    VertexCopy {
        src_start: commands[sorted[g][k] as int].vertices_start_idx,
        dst_start: (groups_vertices(commands, sorted, g as nat) + group_vertices(commands, sorted[g], k as nat)) as usize,
        count: commands[sorted[g][k] as int].vertices_count,
    }
}

/// The vertex copies of the sorted groups of commands, group by group and command by
/// command, laid out one after the other in the shared vertex buffer.
pub fn plan_vertex_copies(commands: &Vec<CommandRange>, sorted: &Vec<Vec<usize>>) -> (res: Vec<Vec<VertexCopy>>)
    requires
        forall|g: int, k: int| 0 <= g < sorted@.len() && 0 <= k < sorted@[g]@.len() ==> #[trigger] sorted@[g]@[k] < commands@.len(),
        groups_vertices(commands@, sorted@.map_values(|v: Vec<usize>| v@), sorted@.len()) <= usize::MAX,
    ensures
        res@.len() == sorted@.len(),
        forall|g: int| 0 <= g < sorted@.len() ==> (#[trigger] res@[g])@.len() == sorted@[g]@.len(),
        forall|g: int, k: int| 0 <= g < sorted@.len() && 0 <= k < sorted@[g]@.len() ==>
            #[trigger] res@[g]@[k] == vertex_copy_of(commands@, sorted@.map_values(|v: Vec<usize>| v@), g, k),
{
    let ghost groups = sorted@.map_values(|v: Vec<usize>| v@);
    let ghost cs = commands@;
    let mut res: Vec<Vec<VertexCopy>> = Vec::new();
    let mut vertex_idx: usize = 0;
    let mut g: usize = 0;
    while g < sorted.len()
        invariant
            groups == sorted@.map_values(|v: Vec<usize>| v@),
            cs == commands@,
            forall|h: int, k: int| 0 <= h < sorted@.len() && 0 <= k < sorted@[h]@.len() ==> #[trigger] sorted@[h]@[k] < commands@.len(),
            groups_vertices(cs, groups, groups.len()) <= usize::MAX,
            g <= sorted@.len(),
            res@.len() == g,
            vertex_idx == groups_vertices(cs, groups, g as nat),
            forall|h: int| 0 <= h < g ==> (#[trigger] res@[h])@.len() == sorted@[h]@.len(),
            forall|h: int, k: int| 0 <= h < g && 0 <= k < sorted@[h]@.len() ==>
                #[trigger] res@[h]@[k] == vertex_copy_of(cs, groups, h, k),
        decreases sorted@.len() - g,
    {
        let group = &sorted[g];
        let ghost gs = groups[g as int];
        assert(gs == group@);
        proof {
            lemma_groups_monotone(cs, groups, (g + 1) as nat, groups.len());
        }
        let mut copies: Vec<VertexCopy> = Vec::new();
        let mut vertex_count: usize = 0;
        let mut k: usize = 0;
        while k < group.len()
            invariant
                groups == sorted@.map_values(|v: Vec<usize>| v@),
                cs == commands@,
                forall|h: int, j: int| 0 <= h < sorted@.len() && 0 <= j < sorted@[h]@.len() ==> #[trigger] sorted@[h]@[j] < commands@.len(),
                g < sorted@.len(),
                gs == groups[g as int],
                gs == group@,
                k <= group@.len(),
                vertex_idx == groups_vertices(cs, groups, g as nat),
                vertex_count == group_vertices(cs, gs, k as nat),
                vertex_idx + group_vertices(cs, gs, gs.len()) <= usize::MAX,
                copies@.len() == k,
                forall|j: int| 0 <= j < k ==> #[trigger] copies@[j] == vertex_copy_of(cs, groups, g as int, j),
            decreases group@.len() - k,
        {
            let c = commands[group[k]];
            proof {
                assert(sorted@[g as int]@[k as int] < commands@.len());
                lemma_group_monotone(cs, gs, (k + 1) as nat, gs.len());
            }
            copies.push(VertexCopy { src_start: c.vertices_start_idx, dst_start: vertex_idx + vertex_count, count: c.vertices_count });
            vertex_count = vertex_count + c.vertices_count;
            k = k + 1;
        }
        res.push(copies);
        vertex_idx = vertex_idx + vertex_count;
        g = g + 1;
    }
    res
}

} // verus!
