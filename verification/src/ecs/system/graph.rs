//! Directed graphs of node ids, held in `petgraph` graph maps, and breadth-first
//! traversals of them.
use vstd::prelude::*;
use petgraph::graphmap::{DiGraphMap, GraphMap};
use petgraph::visit::Bfs;
use petgraph::{Directed, Direction};
use std::collections::HashSet;

verus! {

#[verifier::external_type_specification]
#[verifier::external_body]
#[verifier::reject_recursive_types(N)]
#[verifier::reject_recursive_types(E)]
#[verifier::reject_recursive_types(Ty)]
#[verifier::reject_recursive_types(S)]
pub struct ExGraphMap<N, E, Ty, S: core::hash::BuildHasher>(GraphMap<N, E, Ty, S>);

#[verifier::external_type_specification]
#[verifier::external_body]
pub struct ExDirected(Directed);

#[verifier::external_type_specification]
#[verifier::external_body]
#[verifier::reject_recursive_types(N)]
#[verifier::reject_recursive_types(VM)]
pub struct ExBfs<N, VM>(Bfs<N, VM>);

/// The nodes of a graph.
pub uninterp spec fn graph_nodes(g: DiGraphMap<u32, ()>) -> Set<u32>;

/// The edges of a graph, as (source, target) pairs.
pub uninterp spec fn graph_edges(g: DiGraphMap<u32, ()>) -> Set<(u32, u32)>;

/// The nodes that a breadth-first traversal still has to visit, in order.
pub uninterp spec fn bfs_queue(b: Bfs<u32, HashSet<u32>>) -> Seq<u32>;

/// The nodes that a breadth-first traversal has discovered so far.
pub uninterp spec fn bfs_discovered(b: Bfs<u32, HashSet<u32>>) -> Set<u32>;

/// The targets of the edges leaving `n`.
pub open spec fn successors(edges: Set<(u32, u32)>, n: u32) -> Set<u32> {
    Set::new(|m: u32| edges.contains((n, m)))
}

/// Every edge joins two nodes of the graph.
pub open spec fn edges_within(nodes: Set<u32>, edges: Set<(u32, u32)>) -> bool {
    forall|e: (u32, u32)| #[trigger] edges.contains(e) ==> nodes.contains(e.0) && nodes.contains(e.1)
}

/// `order` lists every node once, each before the targets of its edges.
pub open spec fn is_topological_order(order: Seq<u32>, nodes: Set<u32>, edges: Set<(u32, u32)>) -> bool {
    &&& order.no_duplicates()
    &&& order.to_set() == nodes
    &&& forall|i: int, j: int|
        0 <= i < order.len() && 0 <= j < order.len() && #[trigger] edges.contains((order[i], order[j]))
            ==> i < j
}

/// The direction of the edges to follow from a node.
#[derive(Clone, Copy, PartialEq, Eq, Debug)]
pub enum EdgeDirection {
    Outgoing,
    Incoming,
}

/// `GraphMap::new`: a graph without nodes.
#[verifier::external_body]
pub(crate) fn graph_new() -> (g: DiGraphMap<u32, ()>)
    ensures
        graph_nodes(g) == Set::<u32>::empty(),
        graph_edges(g) == Set::<(u32, u32)>::empty(),
{
    DiGraphMap::new()
}

/// `GraphMap::add_node`: adds `n` if it is not a node yet.
#[verifier::external_body]
pub(crate) fn graph_add_node(g: &mut DiGraphMap<u32, ()>, n: u32)
    ensures
        graph_nodes(*final(g)) == graph_nodes(*old(g)).insert(n),
        graph_edges(*final(g)) == graph_edges(*old(g)),
{
    g.add_node(n);
}

/// `GraphMap::add_edge`: adds the edge from `a` to `b`, and its ends as nodes.
#[verifier::external_body]
pub(crate) fn graph_add_edge(g: &mut DiGraphMap<u32, ()>, a: u32, b: u32)
    ensures
        graph_nodes(*final(g)) == graph_nodes(*old(g)).insert(a).insert(b),
        graph_edges(*final(g)) == graph_edges(*old(g)).insert((a, b)),
{
    g.add_edge(a, b, ());
}

/// `GraphMap::neighbors_directed`: the nodes joined to `a` by an edge leaving `a`
/// (outgoing) or reaching `a` (incoming), each once.
#[verifier::external_body]
pub(crate) fn graph_neighbors_directed(g: &DiGraphMap<u32, ()>, a: u32, dir: EdgeDirection) -> (res:
    Vec<u32>)
    ensures
        res@.no_duplicates(),
        forall|n: u32|
            res@.contains(n) <==> match dir {
                EdgeDirection::Outgoing => graph_edges(*g).contains((a, n)),
                EdgeDirection::Incoming => graph_edges(*g).contains((n, a)),
            },
{
    let direction = match dir {
        EdgeDirection::Outgoing => Direction::Outgoing,
        EdgeDirection::Incoming => Direction::Incoming,
    };
    g.neighbors_directed(a, direction).collect()
}

/// `GraphMap::edges_directed` with `Incoming`: the sources of the edges reaching `a`,
/// each once.
#[verifier::external_body]
pub(crate) fn graph_incoming_edge_sources(g: &DiGraphMap<u32, ()>, a: u32) -> (res: Vec<u32>)
    ensures
        res@.no_duplicates(),
        forall|n: u32| res@.contains(n) <==> graph_edges(*g).contains((n, a)),
{
    g.edges_directed(a, Direction::Incoming).map(|edge| edge.0).collect()
}

/// `petgraph::algo::toposort`: a topological order of the nodes when the graph has
/// no cycle (self loops are cycles), otherwise an error.
#[verifier::external_body]
pub(crate) fn graph_toposort(g: &DiGraphMap<u32, ()>) -> (res: Result<Vec<u32>, ()>)
    requires
        edges_within(graph_nodes(*g), graph_edges(*g)),
    ensures
        res is Ok <==> exists|order: Seq<u32>|
            is_topological_order(order, graph_nodes(*g), graph_edges(*g)),
        res matches Ok(order) ==> is_topological_order(order@, graph_nodes(*g), graph_edges(*g)),
{
    match petgraph::algo::toposort(g, None) {
        Ok(order) => Ok(order),
        Err(_) => Err(()),
    }
}

/// `Bfs::new`: a breadth-first traversal about to visit `start`.
#[verifier::external_body]
pub(crate) fn bfs_new(g: &DiGraphMap<u32, ()>, start: u32) -> (b: Bfs<u32, HashSet<u32>>)
    ensures
        bfs_queue(b) == seq![start],
        bfs_discovered(b) == set![start],
{
    Bfs::new(g, start)
}

/// `Bfs::next`: takes the first node of the queue, discovers its successors that were
/// not discovered yet and queues them (in some order), and returns the node; `None`
/// once the queue is empty.
#[verifier::external_body]
pub(crate) fn bfs_next(b: &mut Bfs<u32, HashSet<u32>>, g: &DiGraphMap<u32, ()>) -> (res: Option<u32>)
    ensures
        bfs_queue(*old(b)).len() == 0 ==> res is None && bfs_queue(*final(b)) == bfs_queue(*old(b))
            && bfs_discovered(*final(b)) == bfs_discovered(*old(b)),
        bfs_queue(*old(b)).len() > 0 ==> {
            let node = bfs_queue(*old(b))[0];
            let fresh = successors(graph_edges(*g), node).difference(bfs_discovered(*old(b)));
            &&& res == Some(node)
            &&& bfs_queue(*final(b)).len() >= bfs_queue(*old(b)).len() - 1
            &&& bfs_discovered(*final(b)) == bfs_discovered(*old(b)).union(
                successors(graph_edges(*g), node),
            )
            &&& bfs_queue(*final(b)).subrange(0, bfs_queue(*old(b)).len() - 1)
                == bfs_queue(*old(b)).drop_first()
            &&& bfs_queue(*final(b)).skip(bfs_queue(*old(b)).len() - 1).no_duplicates()
            &&& bfs_queue(*final(b)).skip(bfs_queue(*old(b)).len() - 1).to_set() == fresh
        },
{
    b.next(g)
}

} // verus!
