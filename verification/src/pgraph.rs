//! The only module that touches petgraph.  The graph itself is opaque to the
//! verifier; two uninterpreted names, `graph_nodes` and `graph_edges`, stand
//! for its node count and its edge list, and every petgraph method the engine
//! calls is wrapped in a function whose contract states, over those names,
//! what the petgraph source shows.

use crate::paths::{has_edge, reachable, EdgeRec};
use vstd::prelude::*;

verus! {

#[verifier::external_type_specification]
#[verifier::external_body]
#[verifier::reject_recursive_types(N)]
#[verifier::reject_recursive_types(E)]
#[verifier::reject_recursive_types(Ty)]
#[verifier::reject_recursive_types(Ix)]
pub struct ExGraph<N, E, Ty, Ix>(petgraph::graph::Graph<N, E, Ty, Ix>);

#[verifier::external_type_specification]
#[verifier::external_body]
pub struct ExDirected(petgraph::Directed);

/// The one graph shape the engine uses: no node payload, and an edge payload
/// holding the ratio "target units per source unit" as (numerator,
/// denominator).
pub type PGraph = petgraph::graph::Graph<(), (u64, u64), petgraph::Directed, u32>;

/// How many nodes the graph holds.
pub uninterp spec fn graph_nodes(g: PGraph) -> nat;

/// The graph's edges in index order, each as (source, target, ratio).
pub uninterp spec fn graph_edges(g: PGraph) -> Seq<EdgeRec>;

/// Node indices stay below this bound so that petgraph's `u32`-indexed
/// `add_node` and `add_edge` cannot reach their panicking limit.
pub const INDEX_LIMIT: usize = 0x4000_0000;

/// Relies on `Graph::new`: a fresh graph has no nodes and no edges.
#[verifier::external_body]
pub fn pg_new() -> (g: PGraph)
    ensures
        graph_nodes(g) == 0,
        graph_edges(g) == Seq::<EdgeRec>::empty(),
{
    petgraph::graph::Graph::new()
}

/// Relies on `Graph::add_node`: the new node receives the next free index,
/// and the edges are untouched.
#[verifier::external_body]
pub fn pg_add_node(g: &mut PGraph) -> (i: usize)
    requires
        graph_nodes(*old(g)) < INDEX_LIMIT,
    ensures
        i == graph_nodes(*old(g)),
        graph_nodes(*final(g)) == graph_nodes(*old(g)) + 1,
        graph_edges(*final(g)) == graph_edges(*old(g)),
{
    g.add_node(()).index()
}

/// Relies on `Graph::add_edge`: the edge is appended at the next free edge
/// index, and the nodes are untouched.
#[verifier::external_body]
pub fn pg_add_edge(g: &mut PGraph, a: usize, b: usize, w: (u64, u64))
    requires
        a < graph_nodes(*old(g)),
        b < graph_nodes(*old(g)),
        graph_edges(*old(g)).len() < INDEX_LIMIT,
    ensures
        graph_nodes(*final(g)) == graph_nodes(*old(g)),
        graph_edges(*final(g)) == graph_edges(*old(g)).push((a, b, w)),
{
    g.add_edge(
        petgraph::graph::NodeIndex::new(a),
        petgraph::graph::NodeIndex::new(b),
        w,
    );
}

/// Relies on `Graph::edge_count`: the length of the edge list.
#[verifier::external_body]
pub fn pg_edge_count(g: &PGraph) -> (n: usize)
    ensures
        n == graph_edges(*g).len(),
{
    g.edge_count()
}

/// Relies on `Graph::edge_endpoints`: the stored source and target of the
/// edge at index `i`.
#[verifier::external_body]
pub fn pg_edge_endpoints(g: &PGraph, i: usize) -> (r: (usize, usize))
    requires
        i < graph_edges(*g).len(),
    ensures
        r.0 == graph_edges(*g)[i as int].0,
        r.1 == graph_edges(*g)[i as int].1,
{
    let (a, b) = g.edge_endpoints(petgraph::graph::EdgeIndex::new(i)).unwrap();
    (a.index(), b.index())
}

/// Relies on `Graph::edge_weight`: the stored payload of the edge at `i`.
#[verifier::external_body]
pub fn pg_edge_weight(g: &PGraph, i: usize) -> (w: (u64, u64))
    requires
        i < graph_edges(*g).len(),
    ensures
        w == graph_edges(*g)[i as int].2,
{
    *g.edge_weight(petgraph::graph::EdgeIndex::new(i)).unwrap()
}

/// Relies on `Graph::contains_edge`: whether some edge runs from `a` to `b`.
#[verifier::external_body]
pub fn pg_contains_edge(g: &PGraph, a: usize, b: usize) -> (r: bool)
    ensures
        r == has_edge(graph_edges(*g), a, b),
{
    g.contains_edge(
        petgraph::graph::NodeIndex::new(a),
        petgraph::graph::NodeIndex::new(b),
    )
}

/// Relies on `Graph::find_edge`: the index of some edge from `a` to `b`,
/// or `None` when there is none.
#[verifier::external_body]
pub fn pg_find_edge(g: &PGraph, a: usize, b: usize) -> (r: Option<usize>)
    ensures
        match r {
            Some(i) => i < graph_edges(*g).len() && graph_edges(*g)[i as int].0 == a
                && graph_edges(*g)[i as int].1 == b,
            None => !has_edge(graph_edges(*g), a, b),
        },
{
    g.find_edge(
        petgraph::graph::NodeIndex::new(a),
        petgraph::graph::NodeIndex::new(b),
    ).map(|e| e.index())
}

/// Relies on `petgraph::algo::has_path_connecting`: a depth-first search
/// that reports whether `b` can be reached from `a`.
#[verifier::external_body]
pub fn pg_has_path(g: &PGraph, a: usize, b: usize) -> (r: bool)
    requires
        a < graph_nodes(*g),
        b < graph_nodes(*g),
    ensures
        r == reachable(graph_edges(*g), a, b),
{
    petgraph::algo::has_path_connecting(
        g,
        petgraph::graph::NodeIndex::new(a),
        petgraph::graph::NodeIndex::new(b),
        None,
    )
}

/// Relies on `petgraph::algo::astar` with zero cost and zero heuristic: an
/// uninformed search from `a` to the goal `b`, whose result walks existing
/// edges from `a` to `b`, returned as the visited node indices; `None`
/// exactly when `b` is unreachable.  The start node is expanded first and
/// tested against the goal before any edge is followed, so for `a == b`
/// the path is the single node `a`.
#[verifier::external_body]
pub fn pg_astar(g: &PGraph, a: usize, b: usize) -> (r: Option<Vec<usize>>)
    requires
        a < graph_nodes(*g),
        b < graph_nodes(*g),
    ensures
        match r {
            Some(p) => p@.len() >= 1 && p@[0] == a && p@[p@.len() - 1] == b && (a == b ==> p@.len()
                == 1) && forall|k: int|
                0 < k < p@.len() ==> has_edge(graph_edges(*g), p@[k - 1], #[trigger] p@[k]),
            None => !reachable(graph_edges(*g), a, b),
        },
{
    let goal = petgraph::graph::NodeIndex::new(b);
    let r = petgraph::algo::astar(
        g,
        petgraph::graph::NodeIndex::new(a),
        |n| n == goal,
        empty_cost,
        empty_heuristic,
    );
    r.map(|(_c, p)| p.into_iter().map(|n| n.index()).collect())
}

/// A heuristic that estimates every node at zero, turning the A* search
/// into a plain breadth-first shortest path.
pub fn empty_heuristic<N>(_nid: N) -> (r: u64)
    ensures
        r == 0,
{
    0
}

/// An edge cost of zero for every edge, for the same purpose.
pub fn empty_cost<E>(_er: E) -> (r: u64)
    ensures
        r == 0,
{
    0
}

} // verus!
