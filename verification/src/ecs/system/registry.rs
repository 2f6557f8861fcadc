//! The registry of systems and system sets: a hierarchy of sets, each root set giving
//! a schedule that orders the systems below it.
use vstd::prelude::*;
use petgraph::graphmap::DiGraphMap;
use crate::ecs::bits::{Bits, max_bits};
use crate::ecs::system::{SystemId, SystemDesc, SystemSetDesc};
use crate::ecs::system::schedule::Schedule;
use crate::ecs::system::graph::{
    graph_nodes, graph_edges, graph_new, graph_add_node, graph_add_edge,
    graph_incoming_edge_sources, bfs_new, bfs_next, bfs_queue, bfs_discovered, successors,
    graph_toposort, graph_neighbors_directed, is_topological_order, edges_within, EdgeDirection,
};

verus! {

/// The id of a node (a system or a system set) of the registry.
pub type NodeId = u32;

/// Whether a node is a system set or a system.
#[derive(Clone, Copy, PartialEq, Eq, Debug)]
pub enum SystemNodeType {
    SystemSet,
    System,
}

/// A node of the registry: its name, kind, direct parent sets and the nodes it must
/// run before and after.
pub struct NodeData {
    pub id: SystemId,
    pub ty: SystemNodeType,
    pub parents: Vec<NodeId>,
    pub before: Vec<NodeId>,
    pub after: Vec<NodeId>,
}

/// Which list of a description names an id.
#[derive(Clone, Copy, PartialEq, Eq, Debug)]
pub enum DependencyKind {
    Before,
    After,
    Parent,
}

/// Why a system or a system set cannot be added.
#[derive(Clone, Copy, Debug)]
pub enum RegistryError {
    /// The system has no name.
    MissingSystemId,
    /// A system of that name exists already.
    DuplicateSystemId(SystemId),
    /// `node` names `dependency`, which names no node.
    UnknownId { node: SystemId, dependency: SystemId, kind: DependencyKind },
    /// `node` names itself as a parent or as a node to run before or after.
    SelfDependency { node: SystemId, kind: DependencyKind },
    /// The system belongs to no set.
    SystemWithoutParent,
    /// Node `node` must run before or after `dependency`, which shares no parent set with it.
    UnrelatedDependency { node: NodeId, dependency: NodeId },
}

/// Why the schedule of a root set cannot be built.
#[derive(Clone, Copy, Debug, PartialEq, Eq)]
pub enum ScheduleError {
    /// The systems and sets below the root depend on each other in a cycle.
    DependencyCycle,
    /// The system `system` must run before the set `set`.
    SetDependsOnSystem { system: NodeId, set: NodeId },
}

/// The index of the last node named `id`: adding a node under a name that is taken
/// makes the name refer to the new node.
pub open spec fn find_node(datas: Seq<NodeData>, id: Seq<char>) -> Option<nat>
    decreases datas.len(),
{
    if datas.len() == 0 {
        None
    } else if datas.last().id@ == id {
        Some((datas.len() - 1) as nat)
    } else {
        find_node(datas.drop_last(), id)
    }
}

/// The first of `ids` that names no node; `name`, the name of the node being added,
/// counts as known.
pub open spec fn first_unknown(datas: Seq<NodeData>, ids: Seq<SystemId>, name: Seq<char>) -> Option<SystemId>
    decreases ids.len(),
{
    if ids.len() == 0 {
        None
    } else if find_node(datas, ids[0]@) is None && ids[0]@ != name {
        Some(ids[0])
    } else {
        first_unknown(datas, ids.drop_first(), name)
    }
}

/// Some id of `ids` is `name`.
pub open spec fn names(ids: Seq<SystemId>, name: Seq<char>) -> bool {
    exists|i: int| 0 <= i < ids.len() && #[trigger] ids[i]@ == name
}

/// The nodes named by `ids`.
pub open spec fn node_ids(datas: Seq<NodeData>, ids: Seq<SystemId>) -> Seq<NodeId> {
    ids.map_values(|id: SystemId| find_node(datas, id@).unwrap() as NodeId)
}

/// Node `n` has a parent set among `parents`.
pub open spec fn shares_parent(datas: Seq<NodeData>, n: NodeId, parents: Seq<NodeId>) -> bool {
    exists|i: int| 0 <= i < parents.len() && datas[n as int].parents@.contains(#[trigger] parents[i])
}

/// The first of `deps` that has no parent set among `parents`.
pub open spec fn first_unrelated(datas: Seq<NodeData>, deps: Seq<NodeId>, parents: Seq<NodeId>) -> Option<
    NodeId,
>
    decreases deps.len(),
{
    if deps.len() == 0 {
        None
    } else if !shares_parent(datas, deps[0], parents) {
        Some(deps[0])
    } else {
        first_unrelated(datas, deps.drop_first(), parents)
    }
}

/// The ordering checks shared by systems and sets: every node this one runs before or
/// after must share a parent set with it.
pub open spec fn dependency_error(
    datas: Seq<NodeData>,
    before: Seq<NodeId>,
    after: Seq<NodeId>,
    parents: Seq<NodeId>,
) -> Option<RegistryError> {
    let node = datas.len() as NodeId;
    if first_unrelated(datas, before, parents) is Some {
        Some(
            RegistryError::UnrelatedDependency {
                node,
                dependency: first_unrelated(datas, before, parents).unwrap(),
            },
        )
    } else if first_unrelated(datas, after, parents) is Some {
        Some(
            RegistryError::UnrelatedDependency {
                node,
                dependency: first_unrelated(datas, after, parents).unwrap(),
            },
        )
    } else {
        None
    }
}

/// Why the set `desc` cannot be added, checked in this order: unknown parent, before
/// and after names, then unrelated orderings.
pub open spec fn system_set_error(datas: Seq<NodeData>, desc: SystemSetDesc) -> Option<RegistryError> {
    let name = desc.id@;
    if first_unknown(datas, desc.parent_sets@, name) is Some {
        Some(
            RegistryError::UnknownId {
                node: desc.id,
                dependency: first_unknown(datas, desc.parent_sets@, name).unwrap(),
                kind: DependencyKind::Parent,
            },
        )
    } else if first_unknown(datas, desc.before@, name) is Some {
        Some(
            RegistryError::UnknownId {
                node: desc.id,
                dependency: first_unknown(datas, desc.before@, name).unwrap(),
                kind: DependencyKind::Before,
            },
        )
    } else if first_unknown(datas, desc.after@, name) is Some {
        Some(
            RegistryError::UnknownId {
                node: desc.id,
                dependency: first_unknown(datas, desc.after@, name).unwrap(),
                kind: DependencyKind::After,
            },
        )
    } else {
        self_error(desc.id, desc.parent_sets@, desc.before@, desc.after@)
    }
}

/// The checks that follow the name lookups: no self reference, then related orderings.
pub open spec fn self_error(
    id: SystemId,
    parent_sets: Seq<SystemId>,
    before: Seq<SystemId>,
    after: Seq<SystemId>,
) -> Option<RegistryError> {
    if names(parent_sets, id@) {
        Some(RegistryError::SelfDependency { node: id, kind: DependencyKind::Parent })
    } else if names(before, id@) {
        Some(RegistryError::SelfDependency { node: id, kind: DependencyKind::Before })
    } else if names(after, id@) {
        Some(RegistryError::SelfDependency { node: id, kind: DependencyKind::After })
    } else {
        None
    }
}

/// Why the system `desc` cannot be added, checked in this order: missing or taken
/// name, unknown before, after and parent names, no parent set, unrelated orderings.
pub open spec fn system_error(datas: Seq<NodeData>, desc: SystemDesc) -> Option<RegistryError> {
    if desc.id is None {
        Some(RegistryError::MissingSystemId)
    } else {
        let id = desc.id.unwrap();
        if find_node(datas, id@) is Some {
            Some(RegistryError::DuplicateSystemId(id))
        } else if first_unknown(datas, desc.before@, id@) is Some {
            Some(
                RegistryError::UnknownId {
                    node: id,
                    dependency: first_unknown(datas, desc.before@, id@).unwrap(),
                    kind: DependencyKind::Before,
                },
            )
        } else if first_unknown(datas, desc.after@, id@) is Some {
            Some(
                RegistryError::UnknownId {
                    node: id,
                    dependency: first_unknown(datas, desc.after@, id@).unwrap(),
                    kind: DependencyKind::After,
                },
            )
        } else if first_unknown(datas, desc.parent_sets@, id@) is Some {
            Some(
                RegistryError::UnknownId {
                    node: id,
                    dependency: first_unknown(datas, desc.parent_sets@, id@).unwrap(),
                    kind: DependencyKind::Parent,
                },
            )
        } else if desc.parent_sets@.len() == 0 {
            Some(RegistryError::SystemWithoutParent)
        } else {
            self_error(id, desc.parent_sets@, desc.before@, desc.after@)
        }
    }
}

/// The checks once names are resolved: no unrelated ordering.
pub open spec fn ordering_error(
    datas: Seq<NodeData>,
    parent_sets: Seq<SystemId>,
    before: Seq<SystemId>,
    after: Seq<SystemId>,
) -> Option<RegistryError> {
    dependency_error(
        datas,
        node_ids(datas, before),
        node_ids(datas, after),
        node_ids(datas, parent_sets),
    )
}

/// The full check for adding a set.
pub open spec fn set_add_error(datas: Seq<NodeData>, desc: SystemSetDesc) -> Option<RegistryError> {
    if system_set_error(datas, desc) is Some {
        system_set_error(datas, desc)
    } else {
        ordering_error(datas, desc.parent_sets@, desc.before@, desc.after@)
    }
}

/// The full check for adding a system.
pub open spec fn system_add_error(datas: Seq<NodeData>, desc: SystemDesc) -> Option<RegistryError> {
    if system_error(datas, desc) is Some {
        system_error(datas, desc)
    } else {
        ordering_error(datas, desc.parent_sets@, desc.before@, desc.after@)
    }
}

/// The roots (nodes without parent) above node `n`, through parent links.
pub open spec fn roots_above(datas: Seq<NodeData>, n: nat) -> Set<NodeId>
    decreases n, datas[n as int].parents@.len() + 1,
{
    if n >= datas.len() {
        Set::empty()
    } else if datas[n as int].parents@.len() == 0 {
        set![n as NodeId]
    } else {
        roots_above_parents(datas, n, datas[n as int].parents@.len())
    }
}

/// The roots above the first `k` parents of node `n`.
pub open spec fn roots_above_parents(datas: Seq<NodeData>, n: nat, k: nat) -> Set<NodeId>
    decreases n, k,
{
    if k == 0 || n >= datas.len() || k > datas[n as int].parents@.len() {
        Set::empty()
    } else {
        let p = datas[n as int].parents@[k - 1];
        let above = if p < n {
            roots_above(datas, p as nat)
        } else {
            Set::empty()
        };
        roots_above_parents(datas, n, (k - 1) as nat).union(above)
    }
}

/// A root is above the first `k` parents of `n` when it is above one of them.
proof fn lemma_roots_above_parents(datas: Seq<NodeData>, n: nat, k: nat, r: NodeId)
    requires
        n < datas.len(),
        k <= datas[n as int].parents@.len(),
    ensures
        roots_above_parents(datas, n, k).contains(r) <==> exists|j: int|
            0 <= j < k && datas[n as int].parents@[j] < n
                && #[trigger] roots_above(datas, datas[n as int].parents@[j] as nat).contains(r),
    decreases k,
{
    if k > 0 {
        lemma_roots_above_parents(datas, n, (k - 1) as nat, r);
        let p = datas[n as int].parents@[k - 1];
        if p < n && roots_above(datas, p as nat).contains(r) {
            assert(datas[n as int].parents@[k - 1] < n);
        }
    }
}

/// Node `r` is a root above node `n`.
pub open spec fn reaches_root(datas: Seq<NodeData>, n: nat, r: nat) -> bool {
    r <= u32::MAX && roots_above(datas, n).contains(r as NodeId)
}

/// One step of `reaches_root` below a node that has parents.
proof fn lemma_reaches_root_step(datas: Seq<NodeData>, n: nat, r: NodeId)
    requires
        n < datas.len(),
        datas[n as int].parents@.len() > 0,
    ensures
        reaches_root(datas, n, r as nat) <==> exists|i: int|
            0 <= i < datas[n as int].parents@.len() && datas[n as int].parents@[i] < n
                && #[trigger] reaches_root(datas, datas[n as int].parents@[i] as nat, r as nat),
{
    lemma_roots_above_parents(datas, n, datas[n as int].parents@.len(), r);
    if reaches_root(datas, n, r as nat) {
        let j = choose|j: int|
            0 <= j < datas[n as int].parents@.len() && datas[n as int].parents@[j] < n
                && #[trigger] roots_above(datas, datas[n as int].parents@[j] as nat).contains(r);
        assert(reaches_root(datas, datas[n as int].parents@[j] as nat, r as nat));
    }
    if exists|i: int|
        0 <= i < datas[n as int].parents@.len() && datas[n as int].parents@[i] < n
            && #[trigger] reaches_root(datas, datas[n as int].parents@[i] as nat, r as nat) {
        let i = choose|i: int|
            0 <= i < datas[n as int].parents@.len() && datas[n as int].parents@[i] < n
                && #[trigger] reaches_root(datas, datas[n as int].parents@[i] as nat, r as nat);
        assert(roots_above(datas, datas[n as int].parents@[i] as nat).contains(r));
    }
}

/// The roots above a node are nodes no later than it.
proof fn lemma_roots_below(datas: Seq<NodeData>, n: nat, r: NodeId)
    requires
        links_point_back(datas),
        datas.len() <= u32::MAX,
        roots_above(datas, n).contains(r),
    ensures
        r <= n,
        r < datas.len(),
        datas[r as int].parents@.len() == 0,
    decreases n,
{
    if n < datas.len() && datas[n as int].parents@.len() > 0 {
        lemma_roots_above_parents(datas, n, datas[n as int].parents@.len(), r);
        let j = choose|j: int|
            0 <= j < datas[n as int].parents@.len() && datas[n as int].parents@[j] < n
                && #[trigger] roots_above(datas, datas[n as int].parents@[j] as nat).contains(r);
        lemma_roots_below(datas, datas[n as int].parents@[j] as nat, r);
    }
}

/// The nodes above `n` through parent links, `n` included.
pub open spec fn ancestors(datas: Seq<NodeData>, n: nat) -> Set<NodeId>
    decreases n, datas[n as int].parents@.len() + 1,
{
    if n >= datas.len() {
        Set::empty()
    } else {
        set![n as NodeId].union(ancestors_of_parents(datas, n, datas[n as int].parents@.len()))
    }
}

/// The nodes above the first `k` parents of node `n`, those parents included.
pub open spec fn ancestors_of_parents(datas: Seq<NodeData>, n: nat, k: nat) -> Set<NodeId>
    decreases n, k,
{
    if k == 0 || n >= datas.len() || k > datas[n as int].parents@.len() {
        Set::empty()
    } else {
        let p = datas[n as int].parents@[k - 1];
        let above = if p < n {
            ancestors(datas, p as nat)
        } else {
            Set::empty()
        };
        ancestors_of_parents(datas, n, (k - 1) as nat).union(above)
    }
}

/// A node is above the first `k` parents of `n` when it is above one of them.
proof fn lemma_ancestors_of_parents(datas: Seq<NodeData>, n: nat, k: nat, a: NodeId)
    requires
        n < datas.len(),
        k <= datas[n as int].parents@.len(),
    ensures
        ancestors_of_parents(datas, n, k).contains(a) <==> exists|j: int|
            0 <= j < k && datas[n as int].parents@[j] < n
                && #[trigger] ancestors(datas, datas[n as int].parents@[j] as nat).contains(a),
    decreases k,
{
    if k > 0 {
        lemma_ancestors_of_parents(datas, n, (k - 1) as nat, a);
        let p = datas[n as int].parents@[k - 1];
        if p < n && ancestors(datas, p as nat).contains(a) {
            assert(datas[n as int].parents@[k - 1] < n);
        }
    }
}

/// The nodes below `root` (`root` included): those that have it among their ancestors.
pub open spec fn subtree(datas: Seq<NodeData>, root: NodeId) -> Set<NodeId> {
    Set::new(|n: NodeId| n < datas.len() && ancestors(datas, n as nat).contains(root))
}

/// The nodes of the dependency graph built from `nodes`: those nodes and the nodes
/// they run before or after.
pub open spec fn dependency_nodes(datas: Seq<NodeData>, nodes: Set<NodeId>) -> Set<NodeId> {
    Set::new(
        |m: NodeId|
            nodes.contains(m) || exists|n: NodeId|
                #[trigger] nodes.contains(n) && (datas[n as int].before@.contains(m)
                    || datas[n as int].after@.contains(m)),
    )
}

/// The edges of the dependency graph built from `nodes`: from each of them to the nodes
/// it runs before, and to each of them from the nodes it runs after.
pub open spec fn dependency_edges(datas: Seq<NodeData>, nodes: Set<NodeId>) -> Set<(NodeId, NodeId)> {
    Set::new(
        |e: (NodeId, NodeId)|
            (nodes.contains(e.0) && datas[e.0 as int].before@.contains(e.1)) || (nodes.contains(e.1)
                && datas[e.1 as int].after@.contains(e.0)),
    )
}

/// A parent's ancestors are ancestors of its child.
proof fn lemma_ancestors_of_parent(datas: Seq<NodeData>, p: NodeId, c: nat)
    requires
        links_point_back(datas),
        c < datas.len(),
        datas[c as int].parents@.contains(p),
    ensures
        ancestors(datas, p as nat).subset_of(ancestors(datas, c)),
{
    let j = choose|j: int| 0 <= j < datas[c as int].parents@.len() && datas[c as int].parents@[j] == p;
    assert(datas[c as int].parents@[j] < c);
    assert forall|a: NodeId| ancestors(datas, p as nat).contains(a) implies ancestors(datas, c).contains(a) by {
        lemma_ancestors_of_parents(datas, c, datas[c as int].parents@.len(), a);
        assert(ancestors(datas, datas[c as int].parents@[j] as nat).contains(a));
    }
}

/// A set that holds `root` and every child of its members holds every node below `root`.
proof fn lemma_subtree_in_closed_set(datas: Seq<NodeData>, root: NodeId, closed: Set<NodeId>, n: nat)
    requires
        links_point_back(datas),
        closed.contains(root),
        forall|v: NodeId, c: NodeId|
            closed.contains(v) && c < datas.len() && #[trigger] datas[c as int].parents@.contains(v)
                ==> closed.contains(c),
        n < datas.len(),
        datas.len() <= u32::MAX,
        ancestors(datas, n).contains(root),
    ensures
        closed.contains(n as NodeId),
    decreases n,
{
    if n as NodeId != root {
        lemma_ancestors_of_parents(datas, n, datas[n as int].parents@.len(), root);
        let j = choose|j: int|
            0 <= j < datas[n as int].parents@.len() && datas[n as int].parents@[j] < n
                && #[trigger] ancestors(datas, datas[n as int].parents@[j] as nat).contains(root);
        let p = datas[n as int].parents@[j];
        lemma_subtree_in_closed_set(datas, root, closed, p as nat);
        assert(datas[n as int].parents@.contains(p));
        let c = n as NodeId;
        assert(c as int == n);
        assert(datas[c as int].parents@.contains(p));
    }
}

/// `node_range(len)` holds `len` ids.
proof fn lemma_node_range_len(len: nat)
    requires
        len <= u32::MAX + 1,
    ensures
        node_range(len).finite(),
        node_range(len).len() == len,
    decreases len,
{
    if len == 0 {
        assert(node_range(0) =~= Set::<NodeId>::empty());
    } else {
        lemma_node_range_len((len - 1) as nat);
        assert(node_range(len) =~= node_range((len - 1) as nat).insert((len - 1) as NodeId));
    }
}

/// The edges from `node` to each of `targets`.
pub open spec fn edges_from(node: NodeId, targets: Seq<NodeId>) -> Set<(NodeId, NodeId)> {
    Set::new(|e: (NodeId, NodeId)| e.0 == node && targets.contains(e.1))
}

/// The edges to `node` from each of `sources`.
pub open spec fn edges_to(node: NodeId, sources: Seq<NodeId>) -> Set<(NodeId, NodeId)> {
    Set::new(|e: (NodeId, NodeId)| e.1 == node && sources.contains(e.0))
}

proof fn lemma_edges_from_push(node: NodeId, targets: Seq<NodeId>, t: NodeId)
    ensures
        edges_from(node, targets.push(t)) == edges_from(node, targets).insert((node, t)),
{
    assert forall|e: (NodeId, NodeId)| edges_from(node, targets.push(t)).contains(e)
        <==> edges_from(node, targets).insert((node, t)).contains(e) by {
        if targets.push(t).contains(e.1) && e.1 != t {
            let i = choose|i: int| 0 <= i < targets.push(t).len() && targets.push(t)[i] == e.1;
            assert(targets[i] == e.1);
        }
        if targets.contains(e.1) {
            let i = choose|i: int| 0 <= i < targets.len() && targets[i] == e.1;
            assert(targets.push(t)[i] == e.1);
        }
        if e.1 == t {
            assert(targets.push(t)[targets.len() as int] == t);
        }
    }
    assert(edges_from(node, targets.push(t)) =~= edges_from(node, targets).insert((node, t)));
}

proof fn lemma_edges_to_push(node: NodeId, sources: Seq<NodeId>, s: NodeId)
    ensures
        edges_to(node, sources.push(s)) == edges_to(node, sources).insert((s, node)),
{
    assert forall|e: (NodeId, NodeId)| edges_to(node, sources.push(s)).contains(e)
        <==> edges_to(node, sources).insert((s, node)).contains(e) by {
        if sources.push(s).contains(e.0) && e.0 != s {
            let i = choose|i: int| 0 <= i < sources.push(s).len() && sources.push(s)[i] == e.0;
            assert(sources[i] == e.0);
        }
        if sources.contains(e.0) {
            let i = choose|i: int| 0 <= i < sources.len() && sources[i] == e.0;
            assert(sources.push(s)[i] == e.0);
        }
        if e.0 == s {
            assert(sources.push(s)[sources.len() as int] == s);
        }
    }
    assert(edges_to(node, sources.push(s)) =~= edges_to(node, sources).insert((s, node)));
}

/// One step of a breadth-first walk keeps the queue free of duplicates and of visited
/// nodes, and the discovered nodes equal to the visited and queued ones.
proof fn lemma_bfs_step(
    visited: Seq<NodeId>,
    old_queue: Seq<NodeId>,
    old_disc: Set<NodeId>,
    queue: Seq<NodeId>,
    disc: Set<NodeId>,
    succ: Set<NodeId>,
)
    requires
        old_queue.len() > 0,
        visited.no_duplicates(),
        old_queue.no_duplicates(),
        forall|k: int| 0 <= k < visited.len() ==> !old_queue.contains(#[trigger] visited[k]),
        old_disc == visited.to_set().union(old_queue.to_set()),
        queue.len() >= old_queue.len() - 1,
        queue.subrange(0, old_queue.len() - 1) == old_queue.drop_first(),
        queue.skip(old_queue.len() - 1).no_duplicates(),
        queue.skip(old_queue.len() - 1).to_set() == succ.difference(old_disc),
        disc == old_disc.union(succ),
    ensures
        visited.push(old_queue[0]).no_duplicates(),
        queue.no_duplicates(),
        forall|k: int| 0 <= k < visited.push(old_queue[0]).len() ==> !queue.contains(#[trigger] visited.push(old_queue[0])[k]),
        disc == visited.push(old_queue[0]).to_set().union(queue.to_set()),
{
    let m = old_queue.len() - 1;
    let node = old_queue[0];
    let fresh = queue.skip(m);
    let new_visited = visited.push(node);
    assert forall|a: int| 0 <= a < m implies queue[a] == old_queue[a + 1] && old_disc.contains(#[trigger] queue[a]) by {
        assert(queue.subrange(0, m)[a] == queue[a]);
        assert(old_queue.contains(old_queue[a + 1]));
    }
    assert forall|a: int| m <= a < queue.len() implies queue[a] == fresh[a - m] && !old_disc.contains(#[trigger] queue[a]) && succ.contains(queue[a]) by {
        assert(fresh.contains(fresh[a - m]));
        assert(fresh.to_set().contains(fresh[a - m]));
    }
    assert(old_queue.contains(node));
    assert(old_disc.contains(node));
    assert(!visited.contains(node)) by {
        if visited.contains(node) {
            let k = choose|k: int| 0 <= k < visited.len() && visited[k] == node;
            assert(!old_queue.contains(visited[k]));
        }
    }
    assert(new_visited.no_duplicates()) by {
        assert forall|a: int, b: int| 0 <= a < new_visited.len() && 0 <= b < new_visited.len() && a != b
            implies new_visited[a] != new_visited[b] by {
            if a == visited.len() {
                assert(visited.contains(new_visited[b]));
            } else if b == visited.len() {
                assert(visited.contains(new_visited[a]));
            }
        }
    }
    assert(queue.no_duplicates()) by {
        assert forall|a: int, b: int| 0 <= a < queue.len() && 0 <= b < queue.len() && a != b
            implies queue[a] != queue[b] by {
            if a < m && b < m {
                assert(queue[a] == old_queue[a + 1] && queue[b] == old_queue[b + 1]);
            } else if a >= m && b >= m {
                assert(queue[a] == fresh[a - m] && queue[b] == fresh[b - m]);
            } else if a < m {
                assert(old_disc.contains(queue[a]));
                assert(!old_disc.contains(queue[b]));
            } else {
                assert(old_disc.contains(queue[b]));
                assert(!old_disc.contains(queue[a]));
            }
        }
    }
    assert forall|k: int| 0 <= k < new_visited.len() implies !queue.contains(#[trigger] new_visited[k]) by {
        if queue.contains(new_visited[k]) {
            let i = choose|i: int| 0 <= i < queue.len() && queue[i] == new_visited[k];
            if i < m {
                assert(queue[i] == old_queue[i + 1]);
                if k < visited.len() {
                    assert(new_visited[k] == visited[k]);
                    assert(old_queue.contains(old_queue[i + 1]));
                } else {
                    assert(old_queue[0] == old_queue[i + 1]);
                }
            } else {
                assert(!old_disc.contains(queue[i]));
                if k < visited.len() {
                    assert(new_visited[k] == visited[k]);
                    assert(visited.contains(visited[k]));
                    assert(visited.to_set().contains(visited[k]));
                }
            }
        }
    }
    assert(disc =~= new_visited.to_set().union(queue.to_set())) by {
        assert forall|d: NodeId| disc.contains(d) implies new_visited.to_set().union(queue.to_set()).contains(d) by {
            if old_disc.contains(d) {
                if visited.to_set().contains(d) {
                    let i = choose|i: int| 0 <= i < visited.len() && visited[i] == d;
                    assert(new_visited[i] == d);
                    assert(new_visited.contains(d));
                } else if d == node {
                    assert(new_visited[visited.len() as int] == d);
                    assert(new_visited.contains(d));
                } else {
                    assert(old_queue.contains(d));
                    let i = choose|i: int| 0 <= i < old_queue.len() && old_queue[i] == d;
                    assert(i > 0);
                    assert(queue[i - 1] == old_queue[i]);
                    assert(queue.contains(d));
                }
            } else {
                assert(succ.difference(old_disc).contains(d));
                assert(fresh.contains(d));
                let i = choose|i: int| 0 <= i < fresh.len() && fresh[i] == d;
                assert(queue[m + i] == d);
                assert(queue.contains(d));
            }
        }
        assert forall|d: NodeId| new_visited.to_set().union(queue.to_set()).contains(d) implies disc.contains(d) by {
            if new_visited.contains(d) {
                let i = choose|i: int| 0 <= i < new_visited.len() && new_visited[i] == d;
                if i < visited.len() {
                    assert(visited[i] == d);
                    assert(visited.contains(d));
                }
            } else {
                assert(queue.contains(d));
                let i = choose|i: int| 0 <= i < queue.len() && queue[i] == d;
                if i < m {
                    assert(old_disc.contains(queue[i]));
                } else {
                    assert(succ.contains(queue[i]));
                }
            }
        }
    }
}

/// Adding a node whose links point to earlier nodes keeps every link pointing back.
proof fn lemma_push_links(datas: Seq<NodeData>, node: NodeData)
    requires
        links_point_back(datas),
        forall|k: int| 0 <= k < node.parents@.len() ==> #[trigger] node.parents@[k] < datas.len(),
        forall|k: int| 0 <= k < node.before@.len() ==> #[trigger] node.before@[k] < datas.len(),
        forall|k: int| 0 <= k < node.after@.len() ==> #[trigger] node.after@[k] < datas.len(),
    ensures
        links_point_back(datas.push(node)),
{
    let new = datas.push(node);
    assert forall|c: int, k: int| 0 <= c < new.len() && 0 <= k < new[c].parents@.len()
        implies #[trigger] new[c].parents@[k] < c by {
        if c < datas.len() {
            assert(new[c] == datas[c]);
        }
    }
    assert forall|c: int, k: int| 0 <= c < new.len() && 0 <= k < new[c].before@.len()
        implies #[trigger] new[c].before@[k] < c by {
        if c < datas.len() {
            assert(new[c] == datas[c]);
        }
    }
    assert forall|c: int, k: int| 0 <= c < new.len() && 0 <= k < new[c].after@.len()
        implies #[trigger] new[c].after@[k] < c by {
        if c < datas.len() {
            assert(new[c] == datas[c]);
            assert(datas[c].after@[k] < c);
        } else {
            assert(new[c] == node);
            assert(node.after@[k] < datas.len());
        }
    }
}

/// What a sequence holds after a push.
proof fn lemma_push_contains(s: Seq<NodeId>, n: NodeId)
    ensures
        forall|x: NodeId| s.push(n).contains(x) <==> (s.contains(x) || x == n),
{
    assert forall|x: NodeId| s.push(n).contains(x) <==> (s.contains(x) || x == n) by {
        if s.push(n).contains(x) {
            let k = choose|k: int| 0 <= k < s.push(n).len() && s.push(n)[k] == x;
            if k < s.len() {
                assert(s[k] == x);
            }
        }
        if s.contains(x) {
            let k = choose|k: int| 0 <= k < s.len() && s[k] == x;
            assert(s.push(n)[k] == x);
        }
        if x == n {
            assert(s.push(n)[s.len() as int] == x);
        }
    }
}

/// The hierarchy's edges: from each parent set to each of its direct children.
pub open spec fn hierarchy_edges(datas: Seq<NodeData>) -> Set<(NodeId, NodeId)> {
    Set::new(|e: (NodeId, NodeId)| e.1 < datas.len() && datas[e.1 as int].parents@.contains(e.0))
}

/// The node ids `0 .. len`.
pub open spec fn node_range(len: nat) -> Set<NodeId> {
    Set::new(|n: NodeId| n < len)
}

/// A set without parent: the root of a schedule.
pub open spec fn is_root_set(d: NodeData) -> bool {
    d.ty == SystemNodeType::SystemSet && d.parents@.len() == 0
}

/// The node that `find_node` gives is a node of that name.
pub proof fn lemma_find_node(datas: Seq<NodeData>, id: Seq<char>)
    ensures
        find_node(datas, id) matches Some(n) ==> n < datas.len() && datas[n as int].id@ == id,
    decreases datas.len(),
{
    if datas.len() > 0 && datas.last().id@ != id {
        lemma_find_node(datas.drop_last(), id);
    }
}

/// When no id of `ids` is unknown, each names a node.
pub proof fn lemma_first_unknown_none(datas: Seq<NodeData>, ids: Seq<SystemId>, name: Seq<char>)
    requires
        first_unknown(datas, ids, name) is None,
        !names(ids, name),
    ensures
        forall|i: int| 0 <= i < ids.len() ==> #[trigger] find_node(datas, ids[i]@) is Some,
    decreases ids.len(),
{
    if ids.len() > 0 {
        assert(!names(ids.drop_first(), name)) by {
            if names(ids.drop_first(), name) {
                let i = choose|i: int| 0 <= i < ids.drop_first().len() && #[trigger] ids.drop_first()[i]@ == name;
                assert(ids[i + 1]@ == name);
            }
        }
        assert(ids[0]@ != name) by {
            if ids[0]@ == name {
                assert(names(ids, name));
            }
        }
        lemma_first_unknown_none(datas, ids.drop_first(), name);
        assert forall|i: int| 0 <= i < ids.len() implies #[trigger] find_node(datas, ids[i]@) is Some by {
            if i > 0 {
                assert(ids[i] == ids.drop_first()[i - 1]);
            }
        }
    }
}

/// Every node's parents, and the nodes it runs before and after, were added before it.
pub open spec fn links_point_back(datas: Seq<NodeData>) -> bool {
    &&& forall|c: int, k: int|
        0 <= c < datas.len() && 0 <= k < datas[c].parents@.len() ==> #[trigger] datas[c].parents@[k] < c
    &&& forall|c: int, k: int|
        0 <= c < datas.len() && 0 <= k < datas[c].before@.len() ==> #[trigger] datas[c].before@[k] < c
    &&& forall|c: int, k: int|
        0 <= c < datas.len() && 0 <= k < datas[c].after@.len() ==> #[trigger] datas[c].after@[k] < c
}

/// The roots above node `n`.
pub open spec fn roots_of(datas: Seq<NodeData>, n: NodeId) -> Set<NodeId> {
    roots_above(datas, n as nat)
}

/// The nodes of `order` of kind `ty`, in order.
pub open spec fn nodes_of_kind(datas: Seq<NodeData>, order: Seq<NodeId>, ty: SystemNodeType) -> Seq<NodeId>
    decreases order.len(),
{
    if order.len() == 0 {
        Seq::empty()
    } else {
        let rest = nodes_of_kind(datas, order.drop_last(), ty);
        if datas[order.last() as int].ty == ty {
            rest.push(order.last())
        } else {
            rest
        }
    }
}

/// The nodes with an edge to `n`.
pub open spec fn predecessors(edges: Set<(NodeId, NodeId)>, n: NodeId) -> Set<NodeId> {
    Set::new(|m: NodeId| edges.contains((m, n)))
}

/// `s` is the schedule that running the nodes in `order` gives, over the dependency
/// edges `edges`: the systems and the sets in that order, each system's number of
/// dependencies and its dependents (by position), and which sets directly contain each
/// system and each set.
pub open spec fn schedule_matches(
    s: Schedule,
    datas: Seq<NodeData>,
    order: Seq<NodeId>,
    edges: Set<(NodeId, NodeId)>,
) -> bool {
    let systems = nodes_of_kind(datas, order, SystemNodeType::System);
    let sets = nodes_of_kind(datas, order, SystemNodeType::SystemSet);
    &&& s.systems@ == systems
    &&& s.sets@ == sets
    &&& s.systems_dependencies@.len() == systems.len()
    &&& forall|i: int|
        0 <= i < systems.len() ==> (#[trigger] s.systems_dependencies@[i]).0 == predecessors(
            edges,
            systems[i],
        ).len()
    &&& forall|i: int| 0 <= i < systems.len() ==> (#[trigger] s.systems_dependencies@[i]).1@.no_duplicates()
    &&& forall|i: int, j: usize|
        #![trigger s.systems_dependencies@[i].1@.contains(j)]
        0 <= i < systems.len() ==> (s.systems_dependencies@[i].1@.contains(j) <==> (j < systems.len()
            && edges.contains((systems[i], systems[j as int]))))
    &&& s.system_is_in_set_bitset@.len() == systems.len()
    &&& forall|i: int|
        0 <= i < systems.len() ==> (#[trigger] s.system_is_in_set_bitset@[i])@ == Seq::new(
            sets.len(),
            |j: int| datas[systems[i] as int].parents@.contains(sets[j]),
        )
    &&& s.set_is_in_set_bitset@.len() == sets.len()
    &&& forall|k: int|
        0 <= k < sets.len() ==> (#[trigger] s.set_is_in_set_bitset@[k])@ == Seq::new(
            sets.len(),
            |j: int| datas[sets[k] as int].parents@.contains(sets[j]),
        )
    &&& s.set_has_system_bitset@.len() == sets.len()
    &&& forall|k: int|
        0 <= k < sets.len() ==> (#[trigger] s.set_has_system_bitset@[k])@ == Seq::new(
            systems.len(),
            |j: int| datas[systems[j] as int].parents@.contains(sets[k]),
        )
}

/// The dependency graph below `root` has a topological order.
pub open spec fn has_dependency_order(datas: Seq<NodeData>, root: NodeId) -> bool {
    exists|order: Seq<NodeId>|
        is_topological_order(
            order,
            dependency_nodes(datas, subtree(datas, root)),
            dependency_edges(datas, subtree(datas, root)),
        )
}

/// Below `root`, a system must run before a set, which a schedule cannot express.
pub open spec fn has_set_after_system(datas: Seq<NodeData>, root: NodeId) -> bool {
    exists|s: NodeId, m: NodeId|
        #[trigger] dependency_edges(datas, subtree(datas, root)).contains((s, m)) && datas[s as int].ty
            == SystemNodeType::System && datas[m as int].ty == SystemNodeType::SystemSet
}

/// `s` is a schedule of the root `root`: the one given by some topological order of
/// its dependency graph.
pub open spec fn is_schedule_of(s: Schedule, datas: Seq<NodeData>, root: NodeId) -> bool {
    exists|order: Seq<NodeId>|
        is_topological_order(
            order,
            dependency_nodes(datas, subtree(datas, root)),
            dependency_edges(datas, subtree(datas, root)),
        ) && schedule_matches(s, datas, order, dependency_edges(datas, subtree(datas, root)))
}

/// The nodes of a kind in `order` come from `order`, are no more than it holds, and
/// are listed once when `order` lists each node once.
proof fn lemma_nodes_of_kind(datas: Seq<NodeData>, order: Seq<NodeId>, ty: SystemNodeType)
    ensures
        nodes_of_kind(datas, order, ty).len() <= order.len(),
        forall|k: int| 0 <= k < nodes_of_kind(datas, order, ty).len() ==> order.contains(#[trigger] nodes_of_kind(datas, order, ty)[k]),
        order.no_duplicates() ==> nodes_of_kind(datas, order, ty).no_duplicates(),
    decreases order.len(),
{
    if order.len() > 0 {
        let rest = order.drop_last();
        lemma_nodes_of_kind(datas, rest, ty);
        let r = nodes_of_kind(datas, rest, ty);
        let o = nodes_of_kind(datas, order, ty);
        assert forall|k: int| 0 <= k < o.len() implies order.contains(#[trigger] o[k]) by {
            if k < r.len() {
                assert(rest.contains(r[k]));
                let l = choose|l: int| 0 <= l < rest.len() && rest[l] == r[k];
                assert(order[l] == r[k]);
            } else {
                assert(order[order.len() - 1] == o[k]);
            }
        }
        if order.no_duplicates() {
            assert(rest.no_duplicates());
            if datas[order.last() as int].ty == ty {
                assert forall|k: int| 0 <= k < r.len() implies #[trigger] r[k] != order.last() by {
                    let l = choose|l: int| 0 <= l < rest.len() && rest[l] == r[k];
                    assert(order[l] == r[k]);
                }
            }
        }
    }
}

/// Every schedule of a root has the shape that `Schedule::wf` asks of it: in particular
/// no system is listed as a dependent by more systems than its number of
/// dependencies, which the parallel executor counts down.
pub proof fn lemma_schedule_of_is_well_formed(datas: Seq<NodeData>, root: NodeId, s: Schedule)
    requires
        links_point_back(datas),
        datas.len() < max_bits(),
        datas.len() <= u32::MAX,
        is_schedule_of(s, datas, root),
    ensures
        s.wf(),
{
    let nodes = dependency_nodes(datas, subtree(datas, root));
    let edges = dependency_edges(datas, subtree(datas, root));
    let order = choose|order: Seq<NodeId>| is_topological_order(order, nodes, edges) && schedule_matches(s, datas, order, edges);
    let len = datas.len();
    assert forall|m: NodeId| #[trigger] nodes.contains(m) implies m < len by {
        if !subtree(datas, root).contains(m) {
            let n = choose|n: NodeId| #[trigger] subtree(datas, root).contains(n) && (datas[n as int].before@.contains(m)
                || datas[n as int].after@.contains(m));
            if datas[n as int].before@.contains(m) {
                let k = choose|k: int| 0 <= k < datas[n as int].before@.len() && datas[n as int].before@[k] == m;
                assert(datas[n as int].before@[k] < n);
            } else {
                let k = choose|k: int| 0 <= k < datas[n as int].after@.len() && datas[n as int].after@[k] == m;
                assert(datas[n as int].after@[k] < n);
            }
        }
    }
    assert forall|m: NodeId, t: NodeId| #[trigger] edges.contains((m, t)) implies m < len by {
        if !(subtree(datas, root).contains(m) && datas[m as int].before@.contains(t)) {
            let k = choose|k: int| 0 <= k < datas[t as int].after@.len() && datas[t as int].after@[k] == m;
            assert(datas[t as int].after@[k] < t);
        }
    }
    lemma_node_range_len(len);
    order.unique_seq_to_set();
    assert(order.to_set().subset_of(node_range(len)));
    vstd::set_lib::lemma_len_subset(order.to_set(), node_range(len));
    let systems = nodes_of_kind(datas, order, SystemNodeType::System);
    let sets = nodes_of_kind(datas, order, SystemNodeType::SystemSet);
    lemma_nodes_of_kind(datas, order, SystemNodeType::System);
    lemma_nodes_of_kind(datas, order, SystemNodeType::SystemSet);
    let n = systems.len();
    assert forall|d: int| 0 <= d < n implies s.dependents_of(d).len() <= (#[trigger] s.systems_dependencies@[d]).0 by {
        let dep = s.dependents_of(d);
        let target = systems[d];
        vstd::set_lib::lemma_int_range(0, n as int);
        assert(dep.subset_of(vstd::set_lib::set_int_range(0, n as int)));
        vstd::set_lib::lemma_len_subset(dep, vstd::set_lib::set_int_range(0, n as int));
        let f = |i: int| systems[i];
        assert(vstd::relations::injective_on(f, dep)) by {
            assert forall|x1: int, x2: int| dep.contains(x1) && dep.contains(x2) && #[trigger] f(x1) == #[trigger] f(x2) implies x1 == x2 by {
            }
        }
        let img = dep.map(f);
        vstd::set_lib::lemma_map_size(dep, img, f);
        let preds = predecessors(edges, target);
        assert(img.subset_of(preds)) by {
            assert forall|m: NodeId| #[trigger] img.contains(m) implies preds.contains(m) by {
                let i = choose|i: int| dep.contains(i) && m == f(i);
                assert(s.systems_dependencies@[i].1@.contains(d as usize));
            }
        }
        assert(preds.subset_of(node_range(len)));
        vstd::set_lib::lemma_len_subset(preds, node_range(len));
        vstd::set_lib::lemma_len_subset(img, preds);
    }
    let m = sets.len();
    assert(n <= max_bits() && m <= max_bits());
    assert(s.systems_dependencies@.len() == n);
    assert(forall|i: int| 0 <= i < n ==> (#[trigger] s.systems_dependencies@[i]).1@.no_duplicates());
    assert forall|i: int, k: int| 0 <= i < n && 0 <= k < s.systems_dependencies@[i].1@.len()
        implies #[trigger] s.systems_dependencies@[i].1@[k] < n by {
        assert(s.systems_dependencies@[i].1@.contains(s.systems_dependencies@[i].1@[k]));
    }
    assert(s.system_is_in_set_bitset@.len() == n);
    assert(forall|i: int| 0 <= i < n ==> (#[trigger] s.system_is_in_set_bitset@[i])@.len() == m);
    assert(s.set_is_in_set_bitset@.len() == m);
    assert(forall|k: int| 0 <= k < m ==> (#[trigger] s.set_is_in_set_bitset@[k])@.len() == m);
    assert(s.set_has_system_bitset@.len() == m);
    assert(forall|k: int| 0 <= k < m ==> (#[trigger] s.set_has_system_bitset@[k])@.len() == n);
}

/// Registry of systems and system sets. Every system lies in at least one set; a set
/// without parent is the root of a schedule, which orders the systems below it.
pub struct SystemRegistry {
    hierarchy: DiGraphMap<NodeId, ()>,
    node_datas: Vec<NodeData>,
    next_node_id: NodeId,
    schedules: Vec<Option<Schedule>>,
    root_nodes_to_update: Vec<NodeId>,
    nodes_systems_conditions_to_initialize: Vec<NodeId>,
}

impl Default for SystemRegistry {
    fn default() -> (res: Self)
        ensures
            res.wf(),
            res.nodes().len() == 0,
            res.roots_to_update().is_empty(),
            res.nodes_to_initialize().len() == 0,
    {
        SystemRegistry::new()
    }
}

impl SystemRegistry {
    /// The nodes, indexed by node id.
    pub closed spec fn nodes(&self) -> Seq<NodeData> {
        self.node_datas@
    }

    /// The schedule slot of each node: present for the root sets.
    pub closed spec fn schedules(&self) -> Seq<Option<Schedule>> {
        self.schedules@
    }

    /// The root sets whose schedule must be rebuilt.
    pub closed spec fn roots_to_update(&self) -> Set<NodeId> {
        self.root_nodes_to_update@.to_set()
    }

    /// The nodes whose system and conditions are still to be initialized, in order.
    pub closed spec fn nodes_to_initialize(&self) -> Seq<NodeId> {
        self.nodes_systems_conditions_to_initialize@
    }

    /// The parent-to-child edges of the hierarchy.
    pub closed spec fn hierarchy_edges(&self) -> Set<(NodeId, NodeId)> {
        graph_edges(self.hierarchy)
    }

    /// The registry's invariant.
    pub closed spec fn wf(&self) -> bool {
        let datas = self.node_datas@;
        &&& self.next_node_id == datas.len()
        &&& datas.len() < max_bits()
        &&& self.schedules@.len() == datas.len()
        &&& links_point_back(datas)
        &&& graph_nodes(self.hierarchy) == node_range(datas.len())
        &&& graph_edges(self.hierarchy) == hierarchy_edges(datas)
        &&& forall|i: int| 0 <= i < datas.len() ==> (#[trigger] self.schedules@[i] is Some <==> is_root_set(datas[i]))
        &&& forall|i: int| 0 <= i < datas.len() ==> (#[trigger] self.schedules@[i] matches Some(sch) ==> sch.wf())
        &&& forall|i: int| 0 <= i < datas.len() && #[trigger] datas[i].ty == SystemNodeType::System ==> datas[i].parents@.len() > 0
        &&& self.root_nodes_to_update@.no_duplicates()
        &&& forall|k: int| 0 <= k < self.root_nodes_to_update@.len() ==> #[trigger] self.root_nodes_to_update@[k] < datas.len()
        &&& forall|k: int| 0 <= k < self.root_nodes_to_update@.len() ==> is_root_set(datas[#[trigger] self.root_nodes_to_update@[k] as int])
        &&& forall|k: int| 0 <= k < self.nodes_systems_conditions_to_initialize@.len()
            ==> #[trigger] self.nodes_systems_conditions_to_initialize@[k] < datas.len()
    }

    /// An empty registry.
    pub fn new() -> (res: Self)
        ensures
            res.wf(),
            res.nodes().len() == 0,
            res.roots_to_update().is_empty(),
            res.nodes_to_initialize().len() == 0,
    {
        let res = SystemRegistry {
            hierarchy: graph_new(),
            node_datas: Vec::new(),
            next_node_id: 0,
            schedules: Vec::new(),
            root_nodes_to_update: Vec::new(),
            nodes_systems_conditions_to_initialize: Vec::new(),
        };
        assert(graph_nodes(res.hierarchy) =~= node_range(0));
        assert(graph_edges(res.hierarchy) =~= hierarchy_edges(res.node_datas@));
        res
    }

    /// The number of nodes.
    pub fn node_count(&self) -> (res: usize)
        ensures
            res == self.nodes().len(),
    {
        self.node_datas.len()
    }

    /// The last node named `id`.
    pub fn find_node(&self, id: &SystemId) -> (res: Option<NodeId>)
        requires
            self.wf(),
        ensures
            res matches Some(n) ==> find_node(self.nodes(), id@) == Some(n as nat),
            res is None ==> find_node(self.nodes(), id@) is None,
    {
        let mut i: usize = self.node_datas.len();
        assert(self.node_datas@.subrange(0, i as int) =~= self.node_datas@);
        while i > 0
            invariant
                i <= self.node_datas@.len(),
                self.wf(),
                find_node(self.node_datas@, id@) == find_node(self.node_datas@.subrange(0, i as int), id@),
            decreases i,
        {
            let ghost prefix = self.node_datas@.subrange(0, i as int);
            assert(prefix.drop_last() =~= self.node_datas@.subrange(0, i - 1));
            if self.node_datas[i - 1].id.same_as(id) {
                return Some((i - 1) as NodeId);
            }
            i = i - 1;
        }
        assert(self.node_datas@.subrange(0, 0) =~= Seq::<NodeData>::empty());
        None
    }
    /// The first of `ids` that names no node, `name` counting as known.
    fn first_unknown(&self, ids: &Vec<SystemId>, name: &SystemId) -> (res: Option<SystemId>)
        requires
            self.wf(),
        ensures
            res == first_unknown(self.nodes(), ids@, name@),
    {
        let mut i: usize = 0;
        assert(ids@.skip(0) =~= ids@);
        while i < ids.len()
            invariant
                self.wf(),
                i <= ids.len(),
                first_unknown(self.nodes(), ids@, name@) == first_unknown(
                    self.nodes(),
                    ids@.skip(i as int),
                    name@,
                ),
            decreases ids.len() - i,
        {
            let ghost rest = ids@.skip(i as int);
            assert(rest.drop_first() =~= ids@.skip(i + 1));
            if self.find_node(&ids[i]).is_none() && !ids[i].same_as(name) {
                return Some(ids[i]);
            }
            i = i + 1;
        }
        None
    }

    /// Whether some id of `ids` is `name`.
    fn names(ids: &Vec<SystemId>, name: &SystemId) -> (res: bool)
        ensures
            res == names(ids@, name@),
    {
        let mut i: usize = 0;
        while i < ids.len()
            invariant
                i <= ids.len(),
                forall|k: int| 0 <= k < i ==> #[trigger] ids@[k]@ != name@,
            decreases ids.len() - i,
        {
            if ids[i].same_as(name) {
                return true;
            }
            i = i + 1;
        }
        false
    }

    /// The nodes named by `ids`, which all name a node.
    fn node_ids(&self, ids: &Vec<SystemId>, name: Ghost<Seq<char>>) -> (res: Vec<NodeId>)
        requires
            self.wf(),
            first_unknown(self.nodes(), ids@, name@) is None,
            !names(ids@, name@),
        ensures
            res@ == node_ids(self.nodes(), ids@),
            forall|k: int| 0 <= k < res@.len() ==> #[trigger] res@[k] < self.nodes().len(),
    {
        proof {
            lemma_first_unknown_none(self.nodes(), ids@, name@);
        }
        let mut res: Vec<NodeId> = Vec::new();
        let mut i: usize = 0;
        while i < ids.len()
            invariant
                self.wf(),
                i <= ids.len(),
                forall|k: int| 0 <= k < ids.len() ==> #[trigger] find_node(self.nodes(), ids@[k]@) is Some,
                res@ == node_ids(self.nodes(), ids@.subrange(0, i as int)),
                forall|k: int| 0 <= k < res@.len() ==> #[trigger] res@[k] < self.nodes().len(),
            decreases ids.len() - i,
        {
            assert(find_node(self.nodes(), ids@[i as int]@) is Some);
            let n = self.find_node(&ids[i]).unwrap();
            proof {
                lemma_find_node(self.nodes(), ids@[i as int]@);
            }
            res.push(n);
            i = i + 1;
            assert(ids@.subrange(0, i as int) =~= ids@.subrange(0, i - 1).push(ids@[i - 1]));
            assert(res@ =~= node_ids(self.nodes(), ids@.subrange(0, i as int)));
        }
        assert(ids@.subrange(0, ids.len() as int) =~= ids@);
        res
    }

    /// Whether node `n` has a parent set among `parents`.
    fn shares_parent(&self, n: NodeId, parents: &Vec<NodeId>) -> (res: bool)
        requires
            self.wf(),
            n < self.nodes().len(),
        ensures
            res == shares_parent(self.nodes(), n, parents@),
    {
        let node_parents = &self.node_datas[n as usize].parents;
        let mut i: usize = 0;
        while i < parents.len()
            invariant
                self.wf(),
                n < self.nodes().len(),
                *node_parents == self.node_datas@[n as int].parents,
                i <= parents.len(),
                forall|k: int| 0 <= k < i ==> !node_parents@.contains(#[trigger] parents@[k]),
            decreases parents.len() - i,
        {
            let mut j: usize = 0;
            while j < node_parents.len()
                invariant
                    i < parents.len(),
                    n < self.nodes().len(),
                    *node_parents == self.node_datas@[n as int].parents,
                    j <= node_parents.len(),
                    forall|k: int| 0 <= k < j ==> node_parents@[k] != parents@[i as int],
                decreases node_parents.len() - j,
            {
                if node_parents[j] == parents[i] {
                    assert(node_parents@.contains(parents@[i as int]));
                    assert(self.nodes()[n as int].parents@.contains(parents@[i as int]));
                    return true;
                }
                j = j + 1;
            }
            i = i + 1;
        }
        false
    }

    /// The first of `deps` that has no parent set among `parents`.
    fn first_unrelated(&self, deps: &Vec<NodeId>, parents: &Vec<NodeId>) -> (res: Option<NodeId>)
        requires
            self.wf(),
            forall|k: int| 0 <= k < deps@.len() ==> #[trigger] deps@[k] < self.nodes().len(),
        ensures
            res == first_unrelated(self.nodes(), deps@, parents@),
    {
        let mut i: usize = 0;
        assert(deps@.skip(0) =~= deps@);
        while i < deps.len()
            invariant
                self.wf(),
                forall|k: int| 0 <= k < deps@.len() ==> #[trigger] deps@[k] < self.nodes().len(),
                i <= deps.len(),
                first_unrelated(self.nodes(), deps@, parents@) == first_unrelated(
                    self.nodes(),
                    deps@.skip(i as int),
                    parents@,
                ),
            decreases deps.len() - i,
        {
            let ghost rest = deps@.skip(i as int);
            assert(rest.drop_first() =~= deps@.skip(i + 1));
            if !self.shares_parent(deps[i], parents) {
                return Some(deps[i]);
            }
            i = i + 1;
        }
        None
    }

    /// The ordering checks shared by systems and sets.
    fn dependency_error(&self, before: &Vec<NodeId>, after: &Vec<NodeId>, parents: &Vec<NodeId>) -> (res:
        Option<RegistryError>)
        requires
            self.wf(),
            forall|k: int| 0 <= k < before@.len() ==> #[trigger] before@[k] < self.nodes().len(),
            forall|k: int| 0 <= k < after@.len() ==> #[trigger] after@[k] < self.nodes().len(),
        ensures
            res == dependency_error(self.nodes(), before@, after@, parents@),
    {
        let node = self.next_node_id;
        match self.first_unrelated(before, parents) {
            Some(dependency) => {
                return Some(RegistryError::UnrelatedDependency { node, dependency });
            },
            None => {},
        }
        match self.first_unrelated(after, parents) {
            Some(dependency) => Some(RegistryError::UnrelatedDependency { node, dependency }),
            None => None,
        }
    }

    /// Whether `id` is named by one of the lists of a description: the self-reference
    /// checks, in the order parents, before, after.
    fn self_error(
        id: SystemId,
        parent_sets: &Vec<SystemId>,
        before: &Vec<SystemId>,
        after: &Vec<SystemId>,
    ) -> (res: Option<RegistryError>)
        ensures
            res == self_error(id, parent_sets@, before@, after@),
    {
        if Self::names(parent_sets, &id) {
            Some(RegistryError::SelfDependency { node: id, kind: DependencyKind::Parent })
        } else if Self::names(before, &id) {
            Some(RegistryError::SelfDependency { node: id, kind: DependencyKind::Before })
        } else if Self::names(after, &id) {
            Some(RegistryError::SelfDependency { node: id, kind: DependencyKind::After })
        } else {
            None
        }
    }

    /// Why the set `desc` cannot be added, if it cannot; `None` exactly when
    /// `add_system_set` accepts it.
    pub fn check_system_set(&self, desc: &SystemSetDesc) -> (res: Option<RegistryError>)
        requires
            self.wf(),
        ensures
            res == set_add_error(self.nodes(), *desc),
    {
        let id = desc.id;
        match self.first_unknown(&desc.parent_sets, &id) {
            Some(dependency) => {
                return Some(RegistryError::UnknownId { node: id, dependency, kind: DependencyKind::Parent });
            },
            None => {},
        }
        match self.first_unknown(&desc.before, &id) {
            Some(dependency) => {
                return Some(RegistryError::UnknownId { node: id, dependency, kind: DependencyKind::Before });
            },
            None => {},
        }
        match self.first_unknown(&desc.after, &id) {
            Some(dependency) => {
                return Some(RegistryError::UnknownId { node: id, dependency, kind: DependencyKind::After });
            },
            None => {},
        }
        let self_err = Self::self_error(id, &desc.parent_sets, &desc.before, &desc.after);
        if self_err.is_some() {
            return self_err;
        }
        let before = self.node_ids(&desc.before, Ghost(id@));
        let after = self.node_ids(&desc.after, Ghost(id@));
        let parents = self.node_ids(&desc.parent_sets, Ghost(id@));
        self.dependency_error(&before, &after, &parents)
    }

    /// Why the system `desc` cannot be added, if it cannot; `None` exactly when
    /// `add_system` accepts it.
    pub fn check_system(&self, desc: &SystemDesc) -> (res: Option<RegistryError>)
        requires
            self.wf(),
        ensures
            res == system_add_error(self.nodes(), *desc),
    {
        let id = match desc.id {
            Some(id) => id,
            None => {
                return Some(RegistryError::MissingSystemId);
            },
        };
        if self.find_node(&id).is_some() {
            return Some(RegistryError::DuplicateSystemId(id));
        }
        match self.first_unknown(&desc.before, &id) {
            Some(dependency) => {
                return Some(RegistryError::UnknownId { node: id, dependency, kind: DependencyKind::Before });
            },
            None => {},
        }
        match self.first_unknown(&desc.after, &id) {
            Some(dependency) => {
                return Some(RegistryError::UnknownId { node: id, dependency, kind: DependencyKind::After });
            },
            None => {},
        }
        match self.first_unknown(&desc.parent_sets, &id) {
            Some(dependency) => {
                return Some(RegistryError::UnknownId { node: id, dependency, kind: DependencyKind::Parent });
            },
            None => {},
        }
        if desc.parent_sets.len() == 0 {
            return Some(RegistryError::SystemWithoutParent);
        }
        let self_err = Self::self_error(id, &desc.parent_sets, &desc.before, &desc.after);
        if self_err.is_some() {
            return self_err;
        }
        let before = self.node_ids(&desc.before, Ghost(id@));
        let after = self.node_ids(&desc.after, Ghost(id@));
        let parents = self.node_ids(&desc.parent_sets, Ghost(id@));
        self.dependency_error(&before, &after, &parents)
    }

    /// Takes the next node id.
    fn next_node_id(&mut self) -> (res: NodeId)
        requires
            old(self).next_node_id < u32::MAX,
        ensures
            res == old(self).next_node_id,
            final(self).next_node_id == old(self).next_node_id + 1,
            final(self).hierarchy == old(self).hierarchy,
            final(self).node_datas == old(self).node_datas,
            final(self).schedules == old(self).schedules,
            final(self).root_nodes_to_update == old(self).root_nodes_to_update,
            final(self).nodes_systems_conditions_to_initialize
                == old(self).nodes_systems_conditions_to_initialize,
    {
        let node_id = self.next_node_id;
        self.next_node_id = self.next_node_id + 1;
        node_id
    }

    /// The roots above node `id`, reached through the hierarchy's incoming edges.
    fn root_nodes_id(hierarchy: &DiGraphMap<NodeId, ()>, id: NodeId, datas: Ghost<Seq<NodeData>>) -> (res:
        Vec<NodeId>)
        requires
            id < datas@.len(),
            links_point_back(datas@),
            graph_edges(*hierarchy) == hierarchy_edges(datas@),
        ensures
            forall|r: NodeId| res@.contains(r) <==> reaches_root(datas@, id as nat, r as nat),
        decreases id,
    {
        let sources = graph_incoming_edge_sources(hierarchy, id);
        let ghost parents = datas@[id as int].parents@;
        assert(forall|p: NodeId| sources@.contains(p) <==> parents.contains(p)) by {
            assert forall|p: NodeId| sources@.contains(p) <==> parents.contains(p) by {
                assert(hierarchy_edges(datas@).contains((p, id)) <==> parents.contains(p));
            }
        }
        if sources.len() == 0 {
            assert(parents.len() == 0) by {
                if parents.len() > 0 {
                    assert(parents.contains(parents[0]));
                    assert(sources@.contains(parents[0]));
                }
            }
            let mut res: Vec<NodeId> = Vec::new();
            res.push(id);
            assert forall|r: NodeId| res@.contains(r) <==> reaches_root(datas@, id as nat, r as nat) by {
                if res@.contains(r) {
                    assert(res@[0] == id);
                }
                if r == id {
                    assert(res@[0] == r);
                }
            }
            return res;
        }
        assert(parents.len() > 0) by {
            assert(sources@.contains(sources@[0]));
        }
        let mut nodes: Vec<NodeId> = Vec::new();
        let mut k: usize = 0;
        while k < sources.len()
            invariant
                id < datas@.len(),
                links_point_back(datas@),
                graph_edges(*hierarchy) == hierarchy_edges(datas@),
                parents == datas@[id as int].parents@,
                parents.len() > 0,
                forall|p: NodeId| sources@.contains(p) <==> parents.contains(p),
                k <= sources.len(),
                forall|r: NodeId|
                    nodes@.contains(r) <==> exists|j: int|
                        0 <= j < k && #[trigger] reaches_root(datas@, sources@[j] as nat, r as nat),
            decreases sources.len() - k,
        {
            let source = sources[k];
            assert(sources@.contains(source));
            assert(parents.contains(source));
            let ghost pi = choose|pi: int| 0 <= pi < parents.len() && parents[pi] == source;
            assert(source < id) by {
                assert(datas@[id as int].parents@[pi] < id);
            }
            let mut above = Self::root_nodes_id(hierarchy, source, datas);
            let ghost before_append = nodes@;
            let ghost above_view = above@;
            nodes.append(&mut above);
            k = k + 1;
            assert forall|r: NodeId|
                nodes@.contains(r) <==> exists|j: int|
                    0 <= j < k && #[trigger] reaches_root(datas@, sources@[j] as nat, r as nat) by {
                if nodes@.contains(r) {
                    let i = choose|i: int| 0 <= i < nodes@.len() && nodes@[i] == r;
                    if i < before_append.len() {
                        assert(before_append[i] == r);
                        assert(before_append.contains(r));
                    } else {
                        assert(nodes@[i] == above_view[i - before_append.len()]);
                        assert(above_view.contains(r));
                        assert(reaches_root(datas@, sources@[k - 1] as nat, r as nat));
                    }
                }
                if exists|j: int| 0 <= j < k && #[trigger] reaches_root(datas@, sources@[j] as nat, r as nat) {
                    let j = choose|j: int| 0 <= j < k && #[trigger] reaches_root(datas@, sources@[j] as nat, r as nat);
                    if j < k - 1 {
                        assert(before_append.contains(r));
                        let i = choose|i: int| 0 <= i < before_append.len() && before_append[i] == r;
                        assert(nodes@[i] == r);
                    } else {
                        assert(above_view.contains(r));
                        let i = choose|i: int| 0 <= i < above_view.len() && above_view[i] == r;
                        assert(nodes@[before_append.len() + i] == r);
                    }
                }
            }
        }
        assert forall|r: NodeId| nodes@.contains(r) <==> reaches_root(datas@, id as nat, r as nat) by {
            lemma_reaches_root_step(datas@, id as nat, r);
            if nodes@.contains(r) {
                let j = choose|j: int| 0 <= j < sources@.len() && #[trigger] reaches_root(datas@, sources@[j] as nat, r as nat);
                assert(sources@.contains(sources@[j]));
                assert(parents.contains(sources@[j]));
                let pi = choose|pi: int| 0 <= pi < parents.len() && parents[pi] == sources@[j];
                assert(datas@[id as int].parents@[pi] < id);
                assert(reaches_root(datas@, datas@[id as int].parents@[pi] as nat, r as nat));
            }
            if reaches_root(datas@, id as nat, r as nat) {
                let pi = choose|pi: int|
                    0 <= pi < datas@[id as int].parents@.len() && datas@[id as int].parents@[pi] < id
                        && #[trigger] reaches_root(datas@, datas@[id as int].parents@[pi] as nat, r as nat);
                assert(parents.contains(parents[pi]));
                assert(sources@.contains(parents[pi]));
                let j = choose|j: int| 0 <= j < sources@.len() && sources@[j] == parents[pi];
                assert(reaches_root(datas@, sources@[j] as nat, r as nat));
            }
        }
        nodes
    }

    /// Adds a node whose links were resolved: its hierarchy edges, its data, its place
    /// among the nodes to initialize, and its roots among the roots to update.
    fn initialize_node(
        &mut self,
        node_id: NodeId,
        id: SystemId,
        ty: SystemNodeType,
        parents: Vec<NodeId>,
        before: Vec<NodeId>,
        after: Vec<NodeId>,
    )
        requires
            node_id == old(self).node_datas@.len(),
            old(self).next_node_id == node_id + 1,
            node_id + 1 < max_bits(),
            old(self).schedules@.len() == node_id + 1,
            links_point_back(old(self).node_datas@),
            forall|k: int| 0 <= k < parents@.len() ==> #[trigger] parents@[k] < node_id,
            forall|k: int| 0 <= k < before@.len() ==> #[trigger] before@[k] < node_id,
            forall|k: int| 0 <= k < after@.len() ==> #[trigger] after@[k] < node_id,
            graph_nodes(old(self).hierarchy) == node_range((node_id + 1) as nat),
            hierarchy_edges(old(self).node_datas@).subset_of(graph_edges(old(self).hierarchy)),
            graph_edges(old(self).hierarchy).subset_of(
                hierarchy_edges(old(self).node_datas@).union(
                    Set::new(|e: (NodeId, NodeId)| e.1 == node_id && parents@.contains(e.0)),
                ),
            ),
            forall|i: int| 0 <= i < node_id ==> (#[trigger] old(self).schedules@[i] is Some <==> is_root_set(old(self).node_datas@[i])),
            old(self).schedules@[node_id as int] is Some <==> (ty == SystemNodeType::SystemSet && parents@.len() == 0),
            forall|i: int| 0 <= i <= node_id ==> (#[trigger] old(self).schedules@[i] matches Some(sch) ==> sch.wf()),
            old(self).root_nodes_to_update@.no_duplicates(),
            forall|k: int| 0 <= k < old(self).root_nodes_to_update@.len() ==> #[trigger] old(self).root_nodes_to_update@[k] < node_id,
            forall|k: int| 0 <= k < old(self).root_nodes_to_update@.len() ==> is_root_set(old(self).node_datas@[#[trigger] old(self).root_nodes_to_update@[k] as int]),
            forall|i: int| 0 <= i < node_id && #[trigger] old(self).node_datas@[i].ty == SystemNodeType::System ==> old(self).node_datas@[i].parents@.len() > 0,
            ty == SystemNodeType::System ==> parents@.len() > 0,
            forall|k: int| 0 <= k < old(self).nodes_systems_conditions_to_initialize@.len()
                ==> #[trigger] old(self).nodes_systems_conditions_to_initialize@[k] < node_id,
        ensures
            final(self).wf(),
            final(self).nodes().len() == node_id + 1,
            final(self).nodes().subrange(0, node_id as int) == old(self).node_datas@,
            final(self).nodes()[node_id as int].id == id,
            final(self).nodes()[node_id as int].ty == ty,
            final(self).nodes()[node_id as int].parents@ == parents@,
            final(self).nodes()[node_id as int].before@ == before@,
            final(self).nodes()[node_id as int].after@ == after@,
            final(self).schedules() == old(self).schedules@,
            final(self).roots_to_update() == old(self).root_nodes_to_update@.to_set().union(
                roots_of(final(self).nodes(), node_id),
            ),
            final(self).nodes_to_initialize() == old(self).nodes_systems_conditions_to_initialize@.push(node_id),
    {
        let mut k: usize = 0;
        while k < parents.len()
            invariant
                k <= parents.len(),
                graph_nodes(self.hierarchy) == node_range((node_id + 1) as nat),
                forall|j: int| 0 <= j < parents@.len() ==> #[trigger] parents@[j] < node_id,
                forall|j: int| 0 <= j < k ==> graph_edges(self.hierarchy).contains((#[trigger] parents@[j], node_id)),
                hierarchy_edges(self.node_datas@).subset_of(graph_edges(self.hierarchy)),
                graph_edges(self.hierarchy).subset_of(
                    hierarchy_edges(self.node_datas@).union(
                        Set::new(|e: (NodeId, NodeId)| e.1 == node_id && parents@.contains(e.0)),
                    ),
                ),
                self.node_datas == old(self).node_datas,
                self.schedules == old(self).schedules,
                self.next_node_id == old(self).next_node_id,
                self.root_nodes_to_update == old(self).root_nodes_to_update,
                self.nodes_systems_conditions_to_initialize == old(self).nodes_systems_conditions_to_initialize,
            decreases parents.len() - k,
        {
            let parent = parents[k];
            graph_add_edge(&mut self.hierarchy, parent, node_id);
            assert(parents@.contains(parent));
            assert(graph_nodes(self.hierarchy) =~= node_range((node_id + 1) as nat));
            k = k + 1;
        }
        self.nodes_systems_conditions_to_initialize.push(node_id);
        let ghost old_datas = self.node_datas@;
        self.node_datas.push(NodeData { id, ty, parents, before, after });
        proof {
            let datas = self.node_datas@;
            assert(datas.subrange(0, node_id as int) =~= old_datas);
            lemma_push_links(old_datas, datas[node_id as int]);
            assert(datas =~= old_datas.push(datas[node_id as int]));
            assert(graph_edges(self.hierarchy) =~= hierarchy_edges(datas)) by {
                assert forall|e: (NodeId, NodeId)| #[trigger] graph_edges(self.hierarchy).contains(e)
                    <==> hierarchy_edges(datas).contains(e) by {
                    if e.1 < node_id {
                        assert(datas[e.1 as int] == old_datas[e.1 as int]);
                        assert(hierarchy_edges(old_datas).contains(e) == hierarchy_edges(datas).contains(e));
                    }
                    if e.1 == node_id && datas[node_id as int].parents@.contains(e.0) {
                        let j = choose|j: int| 0 <= j < parents@.len() && parents@[j] == e.0;
                        assert(graph_edges(self.hierarchy).contains((parents@[j], node_id)));
                    }
                }
            }
        }
        let roots = Self::root_nodes_id(&self.hierarchy, node_id, Ghost(self.node_datas@));
        let mut i: usize = 0;
        let ghost before_roots = self.root_nodes_to_update@;
        let ghost datas_now = self.node_datas@;
        let ghost hierarchy_now = self.hierarchy;
        proof {
            assert forall|i: int| 0 <= i < datas_now.len() && #[trigger] datas_now[i].ty == SystemNodeType::System implies datas_now[i].parents@.len() > 0 by {
                if i < node_id {
                    assert(datas_now[i] == old_datas[i]);
                }
            }
            assert forall|k: int| 0 <= k < self.root_nodes_to_update@.len() implies is_root_set(datas_now[#[trigger] self.root_nodes_to_update@[k] as int]) by {
                let r = self.root_nodes_to_update@[k];
                assert(datas_now[r as int] == old_datas[r as int]);
            }
        }
        while i < roots.len()
            invariant
                i <= roots.len(),
                self.node_datas@ == datas_now,
                self.hierarchy == hierarchy_now,
                self.schedules == old(self).schedules,
                self.next_node_id == old(self).next_node_id,
                self.nodes_systems_conditions_to_initialize@ == old(self).nodes_systems_conditions_to_initialize@.push(node_id),
                links_point_back(datas_now),
                datas_now.subrange(0, node_id as int) == old_datas,
                datas_now[node_id as int] == (NodeData { id, ty, parents, before, after }),
                graph_nodes(hierarchy_now) == node_range((node_id + 1) as nat),
                graph_edges(hierarchy_now) == hierarchy_edges(datas_now),
                node_id + 1 < max_bits(),
                node_id < u32::MAX,
                forall|i: int| 0 <= i < datas_now.len() && #[trigger] datas_now[i].ty == SystemNodeType::System ==> datas_now[i].parents@.len() > 0,
                forall|k: int| 0 <= k < self.root_nodes_to_update@.len() ==> is_root_set(datas_now[#[trigger] self.root_nodes_to_update@[k] as int]),
                self.node_datas@.len() == node_id + 1,
                forall|r: NodeId| roots@.contains(r) <==> reaches_root(self.node_datas@, node_id as nat, r as nat),
                self.root_nodes_to_update@.no_duplicates(),
                forall|k: int| 0 <= k < self.root_nodes_to_update@.len() ==> #[trigger] self.root_nodes_to_update@[k] < node_id + 1,
                self.root_nodes_to_update@.to_set() == before_roots.to_set().union(roots@.subrange(0, i as int).to_set()),
            decreases roots.len() - i,
        {
            let root = roots[i];
            assert(roots@.contains(root));
            proof {
                lemma_roots_below(self.node_datas@, node_id as nat, root);
                assert(is_root_set(datas_now[root as int]));
            }
            let mut present = false;
            let mut j: usize = 0;
            while j < self.root_nodes_to_update.len()
                invariant
                    j <= self.root_nodes_to_update.len(),
                    present ==> self.root_nodes_to_update@.contains(root),
                    !present ==> forall|m: int| 0 <= m < j ==> self.root_nodes_to_update@[m] != root,
                decreases self.root_nodes_to_update.len() - j,
            {
                if self.root_nodes_to_update[j] == root {
                    present = true;
                }
                j = j + 1;
            }
            let ghost before_push = self.root_nodes_to_update@;
            if !present {
                self.root_nodes_to_update.push(root);
                proof {
                    before_push.lemma_push_to_set_commute(root);
                }
            }
            i = i + 1;
            assert(roots@.subrange(0, i as int).to_set() =~= roots@.subrange(0, i - 1).to_set().insert(root)) by {
                assert(roots@.subrange(0, i as int) =~= roots@.subrange(0, i - 1).push(root));
                roots@.subrange(0, i - 1).lemma_push_to_set_commute(root);
            }
            assert(self.root_nodes_to_update@.to_set() =~= before_roots.to_set().union(roots@.subrange(0, i as int).to_set()));
        }
        proof {
            assert(roots@.subrange(0, roots@.len() as int) =~= roots@);
            assert(roots@.to_set() =~= roots_of(self.node_datas@, node_id)) by {
                assert forall|r: NodeId| roots@.to_set().contains(r) <==> roots_of(self.node_datas@, node_id).contains(r) by {
                    assert(roots@.to_set().contains(r) <==> roots@.contains(r));
                }
            }
            assert(forall|i: int| 0 <= i < node_id + 1 ==> (#[trigger] self.schedules@[i] is Some <==> is_root_set(self.node_datas@[i]))) by {
                assert forall|i: int| 0 <= i < node_id + 1 implies (#[trigger] self.schedules@[i] is Some <==> is_root_set(self.node_datas@[i])) by {
                    if i < node_id {
                        assert(self.node_datas@[i] == old_datas[i]);
                    }
                }
            }
        }
    }

    /// Adds the system set `desc` and returns its node id. A set without parent is the
    /// root of a new, empty schedule. The roots above the set are marked for update.
    pub fn add_system_set(&mut self, desc: SystemSetDesc) -> (res: NodeId)
        requires
            old(self).wf(),
            set_add_error(old(self).nodes(), desc) is None,
            old(self).nodes().len() + 2 < max_bits(),
            old(self).nodes().len() + 1 < u32::MAX,
        ensures
            final(self).wf(),
            res == old(self).nodes().len(),
            final(self).nodes().len() == old(self).nodes().len() + 1,
            final(self).nodes().subrange(0, res as int) == old(self).nodes(),
            final(self).nodes()[res as int].id == desc.id,
            final(self).nodes()[res as int].ty == SystemNodeType::SystemSet,
            final(self).nodes()[res as int].parents@ == node_ids(old(self).nodes(), desc.parent_sets@),
            final(self).nodes()[res as int].before@ == node_ids(old(self).nodes(), desc.before@),
            final(self).nodes()[res as int].after@ == node_ids(old(self).nodes(), desc.after@),
            final(self).schedules().len() == old(self).schedules().len() + 1,
            final(self).schedules().subrange(0, res as int) == old(self).schedules(),
            desc.parent_sets@.len() == 0 ==> (final(self).schedules()[res as int] matches Some(s) && s.is_empty()),
            desc.parent_sets@.len() > 0 ==> final(self).schedules()[res as int] is None,
            final(self).roots_to_update() == old(self).roots_to_update().union(roots_of(final(self).nodes(), res)),
            final(self).nodes_to_initialize() == old(self).nodes_to_initialize().push(res),
    {
        let id = desc.id;
        let before = self.node_ids(&desc.before, Ghost(id@));
        let after = self.node_ids(&desc.after, Ghost(id@));
        let parents = self.node_ids(&desc.parent_sets, Ghost(id@));
        let ghost old_datas = self.node_datas@;
        let node_id = self.next_node_id();
        graph_add_node(&mut self.hierarchy, node_id);
        assert(graph_nodes(self.hierarchy) =~= node_range((node_id + 1) as nat));
        if parents.len() == 0 {
            self.schedules.push(Some(Schedule::default()));
        } else {
            self.schedules.push(None);
        }
        let mut k: usize = 0;
        while k < parents.len()
            invariant
                k <= parents.len(),
                node_id == old_datas.len(),
                graph_nodes(self.hierarchy) == node_range((node_id + 1) as nat),
                forall|j: int| 0 <= j < parents@.len() ==> #[trigger] parents@[j] < node_id,
                hierarchy_edges(self.node_datas@).subset_of(graph_edges(self.hierarchy)),
                graph_edges(self.hierarchy).subset_of(
                    hierarchy_edges(self.node_datas@).union(
                        Set::new(|e: (NodeId, NodeId)| e.1 == node_id && parents@.contains(e.0)),
                    ),
                ),
                self.node_datas@ == old_datas,
                self.next_node_id == node_id + 1,
                self.schedules@.len() == node_id + 1,
                forall|i: int| 0 <= i < node_id ==> self.schedules@[i] == old(self).schedules@[i],
                self.schedules@[node_id as int] is Some <==> parents@.len() == 0,
                self.schedules@[node_id as int] matches Some(sch) ==> sch.is_empty(),
                self.root_nodes_to_update == old(self).root_nodes_to_update,
                self.nodes_systems_conditions_to_initialize == old(self).nodes_systems_conditions_to_initialize,
            decreases parents.len() - k,
        {
            let parent = parents[k];
            graph_add_edge(&mut self.hierarchy, parent, node_id);
            assert(parents@.contains(parent));
            assert(graph_nodes(self.hierarchy) =~= node_range((node_id + 1) as nat));
            k = k + 1;
        }
        proof {
            assert forall|i: int| 0 <= i < node_id implies (#[trigger] self.schedules@[i] is Some <==> is_root_set(self.node_datas@[i])) by {
                assert(self.schedules@[i] == old(self).schedules@[i]);
            }
        }
        self.initialize_node(node_id, id, SystemNodeType::SystemSet, parents, before, after);
        proof {
            assert(self.schedules@.subrange(0, node_id as int) =~= old(self).schedules@);
            assert(parents@.len() == desc.parent_sets@.len());
        }
        node_id
    }

    /// Adds the system `desc` and returns its node id. The roots above the system are
    /// marked for update.
    pub fn add_system(&mut self, desc: SystemDesc) -> (res: NodeId)
        requires
            old(self).wf(),
            system_add_error(old(self).nodes(), desc) is None,
            old(self).nodes().len() + 2 < max_bits(),
            old(self).nodes().len() + 1 < u32::MAX,
        ensures
            final(self).wf(),
            res == old(self).nodes().len(),
            final(self).nodes().len() == old(self).nodes().len() + 1,
            final(self).nodes().subrange(0, res as int) == old(self).nodes(),
            final(self).nodes()[res as int].id == desc.id.unwrap(),
            final(self).nodes()[res as int].ty == SystemNodeType::System,
            final(self).nodes()[res as int].parents@ == node_ids(old(self).nodes(), desc.parent_sets@),
            final(self).nodes()[res as int].before@ == node_ids(old(self).nodes(), desc.before@),
            final(self).nodes()[res as int].after@ == node_ids(old(self).nodes(), desc.after@),
            final(self).schedules() == old(self).schedules().push(None),
            final(self).roots_to_update() == old(self).roots_to_update().union(roots_of(final(self).nodes(), res)),
            final(self).nodes_to_initialize() == old(self).nodes_to_initialize().push(res),
    {
        let id = desc.id.unwrap();
        let before = self.node_ids(&desc.before, Ghost(id@));
        let after = self.node_ids(&desc.after, Ghost(id@));
        let parents = self.node_ids(&desc.parent_sets, Ghost(id@));
        let node_id = self.next_node_id();
        graph_add_node(&mut self.hierarchy, node_id);
        assert(graph_nodes(self.hierarchy) =~= node_range((node_id + 1) as nat));
        self.schedules.push(None);
        proof {
            assert forall|i: int| 0 <= i < node_id implies (#[trigger] self.schedules@[i] is Some <==> is_root_set(self.node_datas@[i])) by {
                assert(self.schedules@[i] == old(self).schedules@[i]);
            }
        }
        self.initialize_node(node_id, id, SystemNodeType::System, parents, before, after);
        node_id
    }

    /// The dependency graph of the schedule rooted at `root_id`: a breadth-first walk of
    /// the hierarchy from the root adds each node below it, with an edge to each node it
    /// runs before and from each node it runs after.
    fn dependency_graph(&self, root_id: NodeId) -> (res: DiGraphMap<NodeId, ()>)
        requires
            self.wf(),
            root_id < self.nodes().len(),
        ensures
            graph_nodes(res) == dependency_nodes(self.nodes(), subtree(self.nodes(), root_id)),
            graph_edges(res) == dependency_edges(self.nodes(), subtree(self.nodes(), root_id)),
    {
        let ghost datas = self.node_datas@;
        let ghost len = datas.len();
        let ghost hier = graph_edges(self.hierarchy);
        let mut dependency_graph = graph_new();
        let mut bfs = bfs_new(&self.hierarchy, root_id);
        let ghost mut visited: Seq<NodeId> = Seq::empty();
        proof {
            assert(ancestors(datas, root_id as nat).contains(root_id));
            assert(graph_nodes(dependency_graph) =~= dependency_nodes(datas, visited.to_set()));
            assert(graph_edges(dependency_graph) =~= dependency_edges(datas, visited.to_set()));
            assert(bfs_queue(bfs).to_set() =~= set![root_id]) by {
                assert(bfs_queue(bfs)[0] == root_id);
            }
            assert(visited.to_set() =~= Set::<NodeId>::empty());
            assert(bfs_discovered(bfs) =~= visited.to_set().union(bfs_queue(bfs).to_set()));
            lemma_node_range_len(len);
        }
        loop
            invariant
                self.wf(),
                datas == self.node_datas@,
                len == datas.len(),
                hier == graph_edges(self.hierarchy),
                root_id < len,
                node_range(len).finite(),
                node_range(len).len() == len,
                visited.no_duplicates(),
                bfs_queue(bfs).no_duplicates(),
                forall|k: int| 0 <= k < visited.len() ==> !bfs_queue(bfs).contains(#[trigger] visited[k]),
                bfs_discovered(bfs) == visited.to_set().union(bfs_queue(bfs).to_set()),
                bfs_discovered(bfs).contains(root_id),
                forall|d: NodeId| #[trigger] bfs_discovered(bfs).contains(d) ==> d < len && ancestors(datas, d as nat).contains(root_id),
                forall|k: int| 0 <= k < visited.len() ==> successors(hier, #[trigger] visited[k]).subset_of(bfs_discovered(bfs)),
                graph_nodes(dependency_graph) == dependency_nodes(datas, visited.to_set()),
                graph_edges(dependency_graph) == dependency_edges(datas, visited.to_set()),
            ensures
                bfs_queue(bfs).len() == 0,
                visited.no_duplicates(),
                bfs_discovered(bfs) == visited.to_set().union(bfs_queue(bfs).to_set()),
                bfs_discovered(bfs).contains(root_id),
                forall|d: NodeId| #[trigger] bfs_discovered(bfs).contains(d) ==> d < len && ancestors(datas, d as nat).contains(root_id),
                forall|k: int| 0 <= k < visited.len() ==> successors(hier, #[trigger] visited[k]).subset_of(bfs_discovered(bfs)),
                graph_nodes(dependency_graph) == dependency_nodes(datas, visited.to_set()),
                graph_edges(dependency_graph) == dependency_edges(datas, visited.to_set()),
            decreases len - visited.len(),
        {
            let ghost old_queue = bfs_queue(bfs);
            let ghost old_disc = bfs_discovered(bfs);
            let next = bfs_next(&mut bfs, &self.hierarchy);
            let node = match next {
                Some(node) => node,
                None => {
                    break;
                },
            };
            proof {
                let m = old_queue.len() - 1;
                assert(old_queue[0] == node);
                lemma_bfs_step(visited, old_queue, old_disc, bfs_queue(bfs), bfs_discovered(bfs), successors(hier, node));
                let new_visited = visited.push(node);
                // Every newly discovered node is below the root.
                assert forall|d: NodeId| #[trigger] bfs_discovered(bfs).contains(d) implies d < len && ancestors(datas, d as nat).contains(root_id) by {
                    if !old_disc.contains(d) {
                        assert(successors(hier, node).contains(d));
                        assert(hierarchy_edges(datas).contains((node, d)));
                        assert(old_disc.contains(node)) by {
                            assert(old_queue.contains(node));
                        }
                        lemma_ancestors_of_parent(datas, node, d as nat);
                    }
                }
                assert forall|k: int| 0 <= k < new_visited.len() implies successors(hier, #[trigger] new_visited[k]).subset_of(bfs_discovered(bfs)) by {
                    if k < visited.len() {
                        assert(new_visited[k] == visited[k]);
                    }
                }
            }
            graph_add_node(&mut dependency_graph, node);
            proof {
                assert(old_disc.contains(node));
            }
            let node_data = &self.node_datas[node as usize];
            proof {
                assert(node_data.before@.subrange(0, 0) =~= Seq::<NodeId>::empty());
                assert(edges_from(node, Seq::<NodeId>::empty()) =~= Set::<(NodeId, NodeId)>::empty());
                assert(Seq::<NodeId>::empty().to_set() =~= Set::<NodeId>::empty());
                assert(graph_edges(dependency_graph) =~= dependency_edges(datas, visited.to_set()).union(
                    edges_from(node, node_data.before@.subrange(0, 0)),
                ));
                assert(graph_nodes(dependency_graph) =~= dependency_nodes(datas, visited.to_set()).insert(node).union(
                    node_data.before@.subrange(0, 0).to_set(),
                ));
            }
            let mut b: usize = 0;
            while b < node_data.before.len()
                invariant
                    node < len,
                    len == datas.len(),
                    *node_data == datas[node as int],
                    b <= node_data.before.len(),
                    graph_nodes(dependency_graph) == dependency_nodes(datas, visited.to_set()).insert(node).union(
                        node_data.before@.subrange(0, b as int).to_set(),
                    ),
                    graph_edges(dependency_graph) == dependency_edges(datas, visited.to_set()).union(
                        edges_from(node, node_data.before@.subrange(0, b as int)),
                    ),
                decreases node_data.before.len() - b,
            {
                let target = node_data.before[b];
                graph_add_edge(&mut dependency_graph, node, target);
                b = b + 1;
                proof {
                    assert(node_data.before@.subrange(0, b as int) =~= node_data.before@.subrange(0, b - 1).push(target));
                    node_data.before@.subrange(0, b - 1).lemma_push_to_set_commute(target);
                    assert(graph_nodes(dependency_graph) =~= dependency_nodes(datas, visited.to_set()).insert(node).union(
                        node_data.before@.subrange(0, b as int).to_set(),
                    ));
                    lemma_edges_from_push(node, node_data.before@.subrange(0, b - 1), target);
                    assert(graph_edges(dependency_graph) =~= dependency_edges(datas, visited.to_set()).union(
                        edges_from(node, node_data.before@.subrange(0, b as int)),
                    ));
                }
            }
            proof {
                assert(node_data.before@.subrange(0, node_data.before@.len() as int) =~= node_data.before@);
                assert(node_data.after@.subrange(0, 0) =~= Seq::<NodeId>::empty());
                assert(edges_to(node, Seq::<NodeId>::empty()) =~= Set::<(NodeId, NodeId)>::empty());
                assert(Seq::<NodeId>::empty().to_set() =~= Set::<NodeId>::empty());
            }
            let mut a: usize = 0;
            while a < node_data.after.len()
                invariant
                    node < len,
                    len == datas.len(),
                    *node_data == datas[node as int],
                    a <= node_data.after.len(),
                    graph_nodes(dependency_graph) == dependency_nodes(datas, visited.to_set()).insert(node).union(
                        node_data.before@.to_set(),
                    ).union(node_data.after@.subrange(0, a as int).to_set()),
                    graph_edges(dependency_graph) == dependency_edges(datas, visited.to_set()).union(
                        edges_from(node, node_data.before@),
                    ).union(edges_to(node, node_data.after@.subrange(0, a as int))),
                decreases node_data.after.len() - a,
            {
                let source = node_data.after[a];
                graph_add_edge(&mut dependency_graph, source, node);
                a = a + 1;
                proof {
                    assert(node_data.after@.subrange(0, a as int) =~= node_data.after@.subrange(0, a - 1).push(source));
                    node_data.after@.subrange(0, a - 1).lemma_push_to_set_commute(source);
                    assert(graph_nodes(dependency_graph) =~= dependency_nodes(datas, visited.to_set()).insert(node).union(
                        node_data.before@.to_set(),
                    ).union(node_data.after@.subrange(0, a as int).to_set()));
                    lemma_edges_to_push(node, node_data.after@.subrange(0, a - 1), source);
                    assert(graph_edges(dependency_graph) =~= dependency_edges(datas, visited.to_set()).union(
                        edges_from(node, node_data.before@),
                    ).union(edges_to(node, node_data.after@.subrange(0, a as int))));
                }
            }
            proof {
                let new_set = visited.push(node).to_set();
                visited.lemma_push_to_set_commute(node);
                assert(node_data.after@.subrange(0, node_data.after@.len() as int) =~= node_data.after@);
                assert(graph_nodes(dependency_graph) =~= dependency_nodes(datas, new_set)) by {
                    assert forall|m: NodeId| graph_nodes(dependency_graph).contains(m) <==> dependency_nodes(datas, new_set).contains(m) by {
                        if dependency_nodes(datas, new_set).contains(m) && !new_set.contains(m) {
                            let n = choose|n: NodeId| #[trigger] new_set.contains(n) && (datas[n as int].before@.contains(m)
                                || datas[n as int].after@.contains(m));
                            if n != node {
                                assert(visited.to_set().contains(n));
                            }
                        }
                        if dependency_nodes(datas, visited.to_set()).contains(m) && !visited.to_set().contains(m) {
                            let n = choose|n: NodeId| #[trigger] visited.to_set().contains(n) && (datas[n as int].before@.contains(m)
                                || datas[n as int].after@.contains(m));
                            assert(new_set.contains(n));
                        }
                        if node_data.before@.to_set().contains(m) || node_data.after@.to_set().contains(m) {
                            assert(new_set.contains(node));
                        }
                    }
                }
                assert(graph_edges(dependency_graph) =~= dependency_edges(datas, new_set));
                visited = visited.push(node);
                lemma_node_range_len(len);
                visited.unique_seq_to_set();
                assert(visited.to_set().subset_of(node_range(len))) by {
                    assert forall|d: NodeId| visited.to_set().contains(d) implies node_range(len).contains(d) by {
                        assert(bfs_discovered(bfs).contains(d));
                    }
                }
                vstd::set_lib::lemma_len_subset(visited.to_set(), node_range(len));
            }
        }
        proof {
            let vset = visited.to_set();
            assert(bfs_discovered(bfs) =~= vset);
            assert(vset =~= subtree(datas, root_id)) by {
                assert forall|v: NodeId, c: NodeId|
                    vset.contains(v) && c < datas.len() && #[trigger] datas[c as int].parents@.contains(v)
                        implies vset.contains(c) by {
                    let k = choose|k: int| 0 <= k < visited.len() && visited[k] == v;
                    assert(hierarchy_edges(datas).contains((v, c)));
                    assert(successors(hier, visited[k]).contains(c));
                }
                assert forall|n: NodeId| subtree(datas, root_id).contains(n) implies vset.contains(n) by {
                    lemma_subtree_in_closed_set(datas, root_id, vset, n as nat);
                }
            }
        }
        dependency_graph
    }

    /// Splits `order` into its systems and its sets, keeping the order.
    fn split_by_kind(&self, order: &Vec<NodeId>) -> (res: (Vec<NodeId>, Vec<NodeId>))
        requires
            self.wf(),
            order@.no_duplicates(),
            forall|k: int| 0 <= k < order@.len() ==> #[trigger] order@[k] < self.nodes().len(),
        ensures
            res.0@ == nodes_of_kind(self.nodes(), order@, SystemNodeType::System),
            res.1@ == nodes_of_kind(self.nodes(), order@, SystemNodeType::SystemSet),
            res.0@.no_duplicates(),
            res.1@.no_duplicates(),
            res.0@.len() <= order@.len(),
            res.1@.len() <= order@.len(),
            forall|x: NodeId| #[trigger] res.0@.contains(x) <==> (order@.contains(x) && self.nodes()[x as int].ty == SystemNodeType::System),
            forall|x: NodeId| #[trigger] res.1@.contains(x) <==> (order@.contains(x) && self.nodes()[x as int].ty == SystemNodeType::SystemSet),
    {
        let ghost datas = self.nodes();
        let mut systems: Vec<NodeId> = Vec::new();
        let mut sets: Vec<NodeId> = Vec::new();
        let mut i: usize = 0;
        assert(order@.subrange(0, 0) =~= Seq::<NodeId>::empty());
        while i < order.len()
            invariant
                self.wf(),
                datas == self.nodes(),
                order@.no_duplicates(),
                forall|k: int| 0 <= k < order@.len() ==> #[trigger] order@[k] < datas.len(),
                i <= order.len(),
                systems@ == nodes_of_kind(datas, order@.subrange(0, i as int), SystemNodeType::System),
                sets@ == nodes_of_kind(datas, order@.subrange(0, i as int), SystemNodeType::SystemSet),
                systems@.no_duplicates(),
                sets@.no_duplicates(),
                systems@.len() <= i,
                sets@.len() <= i,
                forall|x: NodeId| systems@.contains(x) <==> (order@.subrange(0, i as int).contains(x) && datas[x as int].ty == SystemNodeType::System),
                forall|x: NodeId| sets@.contains(x) <==> (order@.subrange(0, i as int).contains(x) && datas[x as int].ty == SystemNodeType::SystemSet),
            decreases order.len() - i,
        {
            let n = order[i];
            let ghost prefix = order@.subrange(0, i as int);
            let ghost next = order@.subrange(0, i + 1);
            assert(next.drop_last() =~= prefix);
            assert(next.last() == n);
            assert(!prefix.contains(n)) by {
                if prefix.contains(n) {
                    let k = choose|k: int| 0 <= k < prefix.len() && prefix[k] == n;
                    assert(order@[k] == order@[i as int]);
                }
            }
            assert forall|x: NodeId| next.contains(x) <==> (prefix.contains(x) || x == n) by {
                if next.contains(x) {
                    let k = choose|k: int| 0 <= k < next.len() && next[k] == x;
                    if k < i {
                        assert(prefix[k] == x);
                    }
                }
                if prefix.contains(x) {
                    let k = choose|k: int| 0 <= k < prefix.len() && prefix[k] == x;
                    assert(next[k] == x);
                }
                if x == n {
                    assert(next[i as int] == x);
                }
            }
            let ghost old_systems = systems@;
            let ghost old_sets = sets@;
            match self.node_datas[n as usize].ty {
                SystemNodeType::System => {
                    assert(!systems@.contains(n));
                    systems.push(n);
                },
                SystemNodeType::SystemSet => {
                    assert(!sets@.contains(n));
                    sets.push(n);
                },
            }
            i = i + 1;
            assert(order@.subrange(0, i as int) == next);
            proof {
                lemma_push_contains(old_systems, n);
                lemma_push_contains(old_sets, n);
                assert(self.node_datas@[n as int] == datas[n as int]);
                assert forall|x: NodeId| systems@.contains(x) <==> (order@.subrange(0, i as int).contains(x) && datas[x as int].ty == SystemNodeType::System) by {
                    if x == n {
                    } else {
                        assert(systems@.contains(x) <==> old_systems.contains(x));
                    }
                }
                assert forall|x: NodeId| sets@.contains(x) <==> (order@.subrange(0, i as int).contains(x) && datas[x as int].ty == SystemNodeType::SystemSet) by {
                    if x == n {
                    } else {
                        assert(sets@.contains(x) <==> old_sets.contains(x));
                    }
                }
            }
        }
        assert(order@.subrange(0, order.len() as int) =~= order@);
        (systems, sets)
    }

    /// The position of `x` in `v`, if it is there.
    fn position(v: &Vec<NodeId>, x: NodeId) -> (res: Option<usize>)
        ensures
            res matches Some(j) ==> j < v@.len() && v@[j as int] == x,
            res is None ==> !v@.contains(x),
    {
        let mut j: usize = 0;
        while j < v.len()
            invariant
                j <= v.len(),
                forall|k: int| 0 <= k < j ==> v@[k] != x,
            decreases v.len() - j,
        {
            if v[j] == x {
                return Some(j);
            }
            j = j + 1;
        }
        None
    }

    /// Whether `v` holds `x`.
    fn holds(v: &Vec<NodeId>, x: NodeId) -> (res: bool)
        ensures
            res == v@.contains(x),
    {
        Self::position(v, x).is_some()
    }

    /// One bit per candidate: whether `of` holds it.
    fn membership_bits(of: &Vec<NodeId>, candidates: &Vec<NodeId>) -> (res: Bits)
        requires
            candidates@.len() <= max_bits(),
        ensures
            res@ == Seq::new(candidates@.len(), |j: int| of@.contains(candidates@[j])),
    {
        let mut bitset = Bits::repeat(false, candidates.len());
        let mut j: usize = 0;
        while j < candidates.len()
            invariant
                j <= candidates.len(),
                bitset@.len() == candidates@.len(),
                forall|k: int| 0 <= k < j ==> bitset@[k] == of@.contains(candidates@[k]),
                forall|k: int| j <= k < candidates@.len() ==> !bitset@[k],
            decreases candidates.len() - j,
        {
            if Self::holds(of, candidates[j]) {
                bitset.set(j, true);
            }
            j = j + 1;
        }
        assert(bitset@ =~= Seq::new(candidates@.len(), |j: int| of@.contains(candidates@[j])));
        bitset
    }

    /// One bit per system: whether `set` is among its parents.
    fn children_bits(&self, set: NodeId, systems: &Vec<NodeId>) -> (res: Bits)
        requires
            self.wf(),
            systems@.len() <= max_bits(),
            forall|k: int| 0 <= k < systems@.len() ==> #[trigger] systems@[k] < self.nodes().len(),
        ensures
            res@ == Seq::new(systems@.len(), |j: int| self.nodes()[systems@[j] as int].parents@.contains(set)),
    {
        let mut bitset = Bits::repeat(false, systems.len());
        let mut j: usize = 0;
        while j < systems.len()
            invariant
                self.wf(),
                forall|k: int| 0 <= k < systems@.len() ==> #[trigger] systems@[k] < self.nodes().len(),
                j <= systems.len(),
                bitset@.len() == systems@.len(),
                forall|k: int| 0 <= k < j ==> bitset@[k] == self.nodes()[systems@[k] as int].parents@.contains(set),
                forall|k: int| j <= k < systems@.len() ==> !bitset@[k],
            decreases systems.len() - j,
        {
            assert(systems@[j as int] < self.nodes().len());
            if Self::holds(&self.node_datas[systems[j] as usize].parents, set) {
                bitset.set(j, true);
            }
            j = j + 1;
        }
        assert(bitset@ =~= Seq::new(systems@.len(), |j: int| self.nodes()[systems@[j] as int].parents@.contains(set)));
        bitset
    }

    /// Rebuilds the schedule of the root set `root_id` from a topological order of the
    /// dependency graph below it. On error the schedules are left unchanged.
    fn update_root_node(&mut self, root_id: NodeId) -> (res: Result<(), ScheduleError>)
        requires
            old(self).wf(),
            root_id < old(self).nodes().len(),
            is_root_set(old(self).nodes()[root_id as int]),
        ensures
            final(self).wf(),
            final(self).nodes() == old(self).nodes(),
            final(self).roots_to_update() == old(self).roots_to_update(),
            final(self).nodes_to_initialize() == old(self).nodes_to_initialize(),
            res == Err::<(), ScheduleError>(ScheduleError::DependencyCycle) <==> !has_dependency_order(old(self).nodes(), root_id),
            (res matches Err(ScheduleError::SetDependsOnSystem { system, set })) <==> (has_dependency_order(old(self).nodes(), root_id)
                && has_set_after_system(old(self).nodes(), root_id)),
            res matches Err(ScheduleError::SetDependsOnSystem { system, set }) ==> dependency_edges(
                old(self).nodes(),
                subtree(old(self).nodes(), root_id),
            ).contains((system, set)) && old(self).nodes()[system as int].ty == SystemNodeType::System
                && old(self).nodes()[set as int].ty == SystemNodeType::SystemSet,
            res is Err ==> final(self).schedules() == old(self).schedules(),
            res is Ok ==> final(self).schedules() == old(self).schedules().update(
                root_id as int,
                final(self).schedules()[root_id as int],
            ),
            res is Ok ==> (final(self).schedules()[root_id as int] matches Some(s) && is_schedule_of(
                s,
                old(self).nodes(),
                root_id,
            )),
    {
        let ghost datas = self.nodes();
        let ghost nodes = dependency_nodes(datas, subtree(datas, root_id));
        let ghost edges = dependency_edges(datas, subtree(datas, root_id));
        let dependency_graph = self.dependency_graph(root_id);
        proof {
            assert(edges_within(nodes, edges));
        }
        let order = match graph_toposort(&dependency_graph) {
            Ok(order) => order,
            Err(()) => {
                return Err(ScheduleError::DependencyCycle);
            },
        };
        proof {
            assert forall|m: NodeId| nodes.contains(m) implies m < datas.len() by {
                if !subtree(datas, root_id).contains(m) {
                    let n = choose|n: NodeId| #[trigger] subtree(datas, root_id).contains(n) && (datas[n as int].before@.contains(m)
                        || datas[n as int].after@.contains(m));
                    if datas[n as int].before@.contains(m) {
                        let k = choose|k: int| 0 <= k < datas[n as int].before@.len() && datas[n as int].before@[k] == m;
                        assert(datas[n as int].before@[k] < n);
                    } else {
                        let k = choose|k: int| 0 <= k < datas[n as int].after@.len() && datas[n as int].after@[k] == m;
                        assert(datas[n as int].after@[k] < n);
                    }
                }
            }
            assert forall|k: int| 0 <= k < order@.len() implies #[trigger] order@[k] < datas.len() by {
                assert(order@.to_set().contains(order@[k]));
            }
            lemma_node_range_len(datas.len());
            order@.unique_seq_to_set();
            assert(order@.to_set().subset_of(node_range(datas.len())));
            vstd::set_lib::lemma_len_subset(order@.to_set(), node_range(datas.len()));
        }
        let split = self.split_by_kind(&order);
        let systems = split.0;
        let sets = split.1;
        proof {
            assert forall|x: NodeId| systems@.contains(x) <==> (order@.contains(x) && datas[x as int].ty == SystemNodeType::System) by {
                assert(split.0@.contains(x) <==> (order@.contains(x) && self.nodes()[x as int].ty == SystemNodeType::System));
            }
            assert forall|x: NodeId| sets@.contains(x) <==> (order@.contains(x) && datas[x as int].ty == SystemNodeType::SystemSet) by {
                assert(split.1@.contains(x) <==> (order@.contains(x) && self.nodes()[x as int].ty == SystemNodeType::SystemSet));
            }
            assert forall|k: int| 0 <= k < systems@.len() implies #[trigger] systems@[k] < datas.len() by {
                assert(systems@.contains(systems@[k]));
                let l = choose|l: int| 0 <= l < order@.len() && order@[l] == systems@[k];
            }
            assert forall|k: int| 0 <= k < sets@.len() implies #[trigger] sets@[k] < datas.len() by {
                assert(sets@.contains(sets@[k]));
                let l = choose|l: int| 0 <= l < order@.len() && order@[l] == sets@[k];
            }
        }
        let mut systems_dependencies: Vec<(usize, Vec<usize>)> = Vec::new();
        let mut i: usize = 0;
        while i < systems.len()
            invariant
                self.wf(),
                *self == *old(self),
                datas == self.nodes(),
                nodes == dependency_nodes(datas, subtree(datas, root_id)),
                edges == dependency_edges(datas, subtree(datas, root_id)),
                edges_within(nodes, edges),
                graph_nodes(dependency_graph) == nodes,
                graph_edges(dependency_graph) == edges,
                is_topological_order(order@, nodes, edges),
                systems@ == nodes_of_kind(datas, order@, SystemNodeType::System),
                systems@.no_duplicates(),
                forall|x: NodeId| systems@.contains(x) <==> (order@.contains(x) && datas[x as int].ty == SystemNodeType::System),
                i <= systems.len(),
                systems_dependencies@.len() == i,
                forall|k: int| 0 <= k < i ==> (#[trigger] systems_dependencies@[k]).0 == predecessors(edges, systems@[k]).len(),
                forall|k: int| 0 <= k < i ==> (#[trigger] systems_dependencies@[k]).1@.no_duplicates(),
                forall|k: int, j: usize|
                    #![trigger systems_dependencies@[k].1@.contains(j)]
                    0 <= k < i ==> (systems_dependencies@[k].1@.contains(j) <==> (j < systems@.len()
                        && edges.contains((systems@[k], systems@[j as int])))),
                forall|k: int, m: NodeId| 0 <= k < i && #[trigger] edges.contains((systems@[k], m)) ==> datas[m as int].ty == SystemNodeType::System,
            decreases systems.len() - i,
        {
            let system = systems[i];
            let incoming = graph_neighbors_directed(&dependency_graph, system, EdgeDirection::Incoming);
            let outgoing = graph_neighbors_directed(&dependency_graph, system, EdgeDirection::Outgoing);
            let mut dependents: Vec<usize> = Vec::new();
            let mut k: usize = 0;
            assert(edges_within(nodes, edges));
            while k < outgoing.len()
                invariant
                    self.wf(),
                    *self == *old(self),
                    datas == self.nodes(),
                    i < systems@.len(),
                    system == systems@[i as int],
                    is_topological_order(order@, nodes, edges),
                    nodes == dependency_nodes(datas, subtree(datas, root_id)),
                    edges == dependency_edges(datas, subtree(datas, root_id)),
                    edges_within(nodes, edges),
                    forall|n: NodeId| outgoing@.contains(n) <==> edges.contains((system, n)),
                    systems@.no_duplicates(),
                    forall|x: NodeId| systems@.contains(x) <==> (order@.contains(x) && datas[x as int].ty == SystemNodeType::System),
                    outgoing@.no_duplicates(),
                    k <= outgoing.len(),
                    dependents@.len() == k,
                    forall|l: int| 0 <= l < k ==> #[trigger] dependents@[l] < systems@.len() && systems@[dependents@[l] as int] == outgoing@[l],
                decreases outgoing.len() - k,
            {
                match Self::position(&systems, outgoing[k]) {
                    Some(j) => {
                        dependents.push(j);
                    },
                    None => {
                        proof {
                            let m = outgoing@[k as int];
                            assert(outgoing@.contains(m));
                            assert(edges.contains((system, m)));
                            assert(nodes.contains(m));
                            assert(order@.to_set().contains(m));
                            assert(order@.contains(m));
                            assert(datas[m as int].ty == SystemNodeType::SystemSet);
                            assert(systems@.contains(system)) by {
                                assert(systems@[i as int] == system);
                            }
                            assert(datas[system as int].ty == SystemNodeType::System);
                            assert(has_set_after_system(datas, root_id));
                            assert(has_dependency_order(datas, root_id));
                            assert(self.schedules == old(self).schedules);
                        }
                        return Err(ScheduleError::SetDependsOnSystem { system, set: outgoing[k] });
                    },
                }
                k = k + 1;
            }
            proof {
                incoming@.unique_seq_to_set();
                assert(incoming@.to_set() =~= predecessors(edges, system));
                assert(dependents@.no_duplicates()) by {
                    assert forall|a: int, b: int| 0 <= a < dependents@.len() && 0 <= b < dependents@.len() && a != b
                        implies dependents@[a] != dependents@[b] by {
                        assert(systems@[dependents@[a] as int] == outgoing@[a]);
                        assert(systems@[dependents@[b] as int] == outgoing@[b]);
                    }
                }
                assert forall|j: usize| dependents@.contains(j) <==> (j < systems@.len()
                    && edges.contains((system, systems@[j as int]))) by {
                    if dependents@.contains(j) {
                        let l = choose|l: int| 0 <= l < dependents@.len() && dependents@[l] == j;
                        assert(outgoing@.contains(outgoing@[l]));
                    }
                    if j < systems@.len() && edges.contains((system, systems@[j as int])) {
                        assert(outgoing@.contains(systems@[j as int]));
                        let l = choose|l: int| 0 <= l < outgoing@.len() && outgoing@[l] == systems@[j as int];
                        let d = dependents@[l];
                        assert(systems@[d as int] == systems@[j as int]);
                        assert(d == j);
                    }
                }
                assert forall|m: NodeId| #[trigger] edges.contains((system, m)) implies datas[m as int].ty == SystemNodeType::System by {
                    assert(outgoing@.contains(m));
                    let l = choose|l: int| 0 <= l < outgoing@.len() && outgoing@[l] == m;
                    assert(systems@.contains(systems@[dependents@[l] as int]));
                }
            }
            let ghost before_push = systems_dependencies@;
            systems_dependencies.push((incoming.len(), dependents));
            proof {
                assert forall|k: int, j: usize|
                    #![trigger systems_dependencies@[k].1@.contains(j)]
                    0 <= k < i + 1 implies (systems_dependencies@[k].1@.contains(j) <==> (j < systems@.len()
                        && edges.contains((systems@[k], systems@[j as int])))) by {
                    if k < i {
                        assert(systems_dependencies@[k] == before_push[k]);
                    }
                }
            }
            i = i + 1;
        }
        proof {
            assert(!has_set_after_system(datas, root_id)) by {
                if has_set_after_system(datas, root_id) {
                    let (s, m) = choose|s: NodeId, m: NodeId|
                        #[trigger] edges.contains((s, m)) && datas[s as int].ty == SystemNodeType::System
                            && datas[m as int].ty == SystemNodeType::SystemSet;
                    assert(nodes.contains(s));
                    assert(order@.to_set().contains(s));
                    assert(systems@.contains(s));
                    let k = choose|k: int| 0 <= k < systems@.len() && systems@[k] == s;
                    assert(edges.contains((systems@[k], m)));
                }
            }
        }
        let mut system_is_in_set_bitset: Vec<Bits> = Vec::new();
        let mut i: usize = 0;
        while i < systems.len()
            invariant
                self.wf(),
                datas == self.nodes(),
                forall|k: int| 0 <= k < systems@.len() ==> #[trigger] systems@[k] < datas.len(),
                sets@.len() <= max_bits(),
                i <= systems.len(),
                system_is_in_set_bitset@.len() == i,
                forall|k: int| 0 <= k < i ==> (#[trigger] system_is_in_set_bitset@[k])@ == Seq::new(
                    sets@.len(),
                    |j: int| datas[systems@[k] as int].parents@.contains(sets@[j]),
                ),
            decreases systems.len() - i,
        {
            let bitset = Self::membership_bits(&self.node_datas[systems[i] as usize].parents, &sets);
            system_is_in_set_bitset.push(bitset);
            i = i + 1;
        }
        let mut set_is_in_set_bitset: Vec<Bits> = Vec::new();
        let mut i: usize = 0;
        while i < sets.len()
            invariant
                self.wf(),
                datas == self.nodes(),
                forall|k: int| 0 <= k < sets@.len() ==> #[trigger] sets@[k] < datas.len(),
                sets@.len() <= max_bits(),
                i <= sets.len(),
                set_is_in_set_bitset@.len() == i,
                forall|k: int| 0 <= k < i ==> (#[trigger] set_is_in_set_bitset@[k])@ == Seq::new(
                    sets@.len(),
                    |j: int| datas[sets@[k] as int].parents@.contains(sets@[j]),
                ),
            decreases sets.len() - i,
        {
            let bitset = Self::membership_bits(&self.node_datas[sets[i] as usize].parents, &sets);
            set_is_in_set_bitset.push(bitset);
            i = i + 1;
        }
        let mut set_has_system_bitset: Vec<Bits> = Vec::new();
        let mut i: usize = 0;
        while i < sets.len()
            invariant
                self.wf(),
                datas == self.nodes(),
                forall|k: int| 0 <= k < systems@.len() ==> #[trigger] systems@[k] < datas.len(),
                systems@.len() <= max_bits(),
                i <= sets.len(),
                set_has_system_bitset@.len() == i,
                forall|k: int| 0 <= k < i ==> (#[trigger] set_has_system_bitset@[k])@ == Seq::new(
                    systems@.len(),
                    |j: int| datas[systems@[j] as int].parents@.contains(sets@[k]),
                ),
            decreases sets.len() - i,
        {
            let bitset = self.children_bits(sets[i], &systems);
            set_has_system_bitset.push(bitset);
            i = i + 1;
        }
        let schedule = Schedule {
            systems,
            systems_dependencies,
            sets,
            system_is_in_set_bitset,
            set_is_in_set_bitset,
            set_has_system_bitset,
        };
        proof {
            assert(schedule_matches(schedule, datas, order@, edges));
            lemma_schedule_of_is_well_formed(datas, root_id, schedule);
        }
        self.schedules.set(root_id as usize, Some(schedule));
        proof {
            assert(self.schedules@[root_id as int] is Some);
        }
        Ok(())
    }

    /// Hands out the nodes whose system and run conditions must be initialized (the
    /// caller initializes them) and rebuilds the schedule of every root marked for
    /// update. An error names the first root whose schedule cannot be built.
    pub fn update(&mut self) -> (res: Result<Vec<NodeId>, ScheduleError>)
        requires
            old(self).wf(),
        ensures
            final(self).wf(),
            final(self).nodes() == old(self).nodes(),
            res matches Ok(to_initialize) ==> {
                &&& to_initialize@ == old(self).nodes_to_initialize()
                &&& final(self).nodes_to_initialize().len() == 0
                &&& final(self).roots_to_update().is_empty()
                &&& forall|r: NodeId| #[trigger] old(self).roots_to_update().contains(r)
                    ==> (final(self).schedules()[r as int] matches Some(s) && is_schedule_of(s, old(self).nodes(), r))
                &&& forall|i: int| 0 <= i < old(self).nodes().len() && !old(self).roots_to_update().contains(i as NodeId)
                    ==> #[trigger] final(self).schedules()[i] == old(self).schedules()[i]
            },
            res matches Err(e) ==> exists|r: NodeId| #[trigger] old(self).roots_to_update().contains(r) && (match e {
                ScheduleError::DependencyCycle => !has_dependency_order(old(self).nodes(), r),
                ScheduleError::SetDependsOnSystem { system, set } => has_dependency_order(old(self).nodes(), r)
                    && dependency_edges(old(self).nodes(), subtree(old(self).nodes(), r)).contains((system, set))
                    && old(self).nodes()[system as int].ty == SystemNodeType::System
                    && old(self).nodes()[set as int].ty == SystemNodeType::SystemSet,
            }),
    {
        let mut to_initialize: Vec<NodeId> = Vec::new();
        std::mem::swap(&mut to_initialize, &mut self.nodes_systems_conditions_to_initialize);
        let mut roots: Vec<NodeId> = Vec::new();
        std::mem::swap(&mut roots, &mut self.root_nodes_to_update);
        let ghost datas = self.nodes();
        let ghost old_schedules = old(self).schedules@;
        assert(self.wf());
        let mut i: usize = 0;
        while i < roots.len()
            invariant
                self.wf(),
                datas == self.nodes(),
                datas == old(self).nodes(),
                roots@ == old(self).root_nodes_to_update@,
                roots@.no_duplicates(),
                forall|k: int| 0 <= k < roots@.len() ==> #[trigger] roots@[k] < datas.len(),
                forall|k: int| 0 <= k < roots@.len() ==> is_root_set(datas[#[trigger] roots@[k] as int]),
                to_initialize@ == old(self).nodes_to_initialize(),
                self.nodes_to_initialize().len() == 0,
                self.roots_to_update().is_empty(),
                i <= roots.len(),
                forall|k: int| 0 <= k < i ==> (self.schedules()[#[trigger] roots@[k] as int] matches Some(s) && is_schedule_of(s, datas, roots@[k])),
                forall|n: int| 0 <= n < datas.len() && !roots@.subrange(0, i as int).contains(n as NodeId)
                    ==> #[trigger] self.schedules()[n] == old_schedules[n],
            decreases roots.len() - i,
        {
            let root = roots[i];
            let ghost before = self.schedules();
            match self.update_root_node(root) {
                Ok(()) => {},
                Err(e) => {
                    proof {
                        assert(old(self).roots_to_update().contains(root)) by {
                            assert(roots@.contains(root)) by {
                                assert(roots@[i as int] == root);
                            }
                        }
                    }
                    return Err(e);
                },
            }
            proof {
                assert forall|k: int| 0 <= k < i + 1 implies (self.schedules()[#[trigger] roots@[k] as int] matches Some(s) && is_schedule_of(s, datas, roots@[k])) by {
                    if k < i {
                        assert(roots@[k] != root);
                        assert(self.schedules()[roots@[k] as int] == before[roots@[k] as int]);
                    }
                }
                assert forall|n: int| 0 <= n < datas.len() && !roots@.subrange(0, i + 1).contains(n as NodeId)
                    implies #[trigger] self.schedules()[n] == old_schedules[n] by {
                    assert(roots@.subrange(0, i + 1)[i as int] == root);
                    if roots@.subrange(0, i as int).contains(n as NodeId) {
                        let k = choose|k: int| 0 <= k < i && roots@.subrange(0, i as int)[k] == n as NodeId;
                        assert(roots@.subrange(0, i + 1)[k] == n as NodeId);
                    }
                }
            }
            i = i + 1;
        }
        proof {
            assert(roots@.subrange(0, roots@.len() as int) =~= roots@);
            assert forall|r: NodeId| #[trigger] old(self).roots_to_update().contains(r)
                implies (self.schedules()[r as int] matches Some(s) && is_schedule_of(s, datas, r)) by {
                let k = choose|k: int| 0 <= k < roots@.len() && roots@[k] == r;
            }
            assert forall|n: int| 0 <= n < datas.len() && !old(self).roots_to_update().contains(n as NodeId)
                implies #[trigger] self.schedules()[n] == old_schedules[n] by {
                if roots@.contains(n as NodeId) {
                    assert(old(self).roots_to_update().contains(n as NodeId));
                }
            }
        }
        Ok(to_initialize)
    }

    /// The schedule of the root set named `id`, if `id` names one.
    pub fn schedule(&self, id: &SystemId) -> (res: Option<&Schedule>)
        requires
            self.wf(),
        ensures
            res matches Some(s) ==> find_node(self.nodes(), id@) matches Some(n) && self.schedules()[n as int] == Some(*s),
            res matches Some(s) ==> s.wf(),
            res is None ==> (find_node(self.nodes(), id@) matches Some(n) ==> self.schedules()[n as int] is None),
    {
        match self.find_node(id) {
            Some(n) => {
                proof {
                    lemma_find_node(self.nodes(), id@);
                }
                match &self.schedules[n as usize] {
                    Some(schedule) => Some(schedule),
                    None => None,
                }
            },
            None => None,
        }
    }
}

} // verus!
