//! Trusted wrappers around the directed-graph library used to order
//! deferred symbolic links. The graph is modelled by its node count and
//! its edge set over node indices.

use vstd::prelude::*;
use crate::error::CacheError;

verus! {

/// A directed graph over anonymous nodes. The graph type cannot be
/// declared to the verifier (its index parameter is bound by the library's
/// own traits), so it lives in a hidden field and is reasoned about only
/// through `graph_node_count`, `graph_edge_count` and `graph_edges`.
#[verifier::external_body]
pub struct DepGraph {
    inner: petgraph::graph::DiGraph<(), ()>,
}

/// How many nodes the graph holds; indices run from zero to this count.
pub uninterp spec fn graph_node_count(g: DepGraph) -> nat;

/// How many times an edge was added (parallel edges counted separately).
pub uninterp spec fn graph_edge_count(g: DepGraph) -> nat;

/// The edges of the graph, as pairs of node indices.
pub uninterp spec fn graph_edges(g: DepGraph) -> Set<(int, int)>;

/// The order lists every node before every node it points at.
pub open spec fn respects_edges(order: Seq<usize>, edges: Set<(int, int)>) -> bool {
    forall|i: int, j: int|
        0 <= i < order.len() && 0 <= j < order.len() && edges.contains(
            (order[i] as int, order[j] as int),
        ) ==> i < j
}

/// Some non-empty walk through the edges returns to its start.
pub open spec fn has_cycle(edges: Set<(int, int)>) -> bool {
    exists|p: Seq<int>|
        p.len() >= 2 && p.first() == p.last() && (forall|i: int|
            0 <= i < p.len() - 1 ==> #[trigger] edges.contains((p[i], p[i + 1])))
}

/// Relies on `petgraph::graph::Graph::new`: a fresh graph is empty.
#[verifier::external_body]
pub(crate) fn graph_new() -> (r: DepGraph)
    ensures
        graph_node_count(r) == 0,
        graph_edge_count(r) == 0,
        graph_edges(r) == Set::<(int, int)>::empty(),
{
    DepGraph { inner: petgraph::graph::DiGraph::new() }
}

/// Relies on `petgraph::graph::Graph::add_node`: the new node gets the
/// next consecutive index. (The library panics at the maximum index of its
/// 32-bit index type; the bound keeps that out of reach.)
#[verifier::external_body]
pub(crate) fn graph_add_node(g: &mut DepGraph) -> (r: usize)
    requires
        graph_node_count(*old(g)) < 0xFFFF_FFFF,
    ensures
        r as nat == graph_node_count(*old(g)),
        graph_node_count(*final(g)) == graph_node_count(*old(g)) + 1,
        graph_edge_count(*final(g)) == graph_edge_count(*old(g)),
        graph_edges(*final(g)) == graph_edges(*old(g)),
{
    g.inner.add_node(()).index()
}

/// Relies on `petgraph::graph::Graph::add_edge`: adds the edge `a -> b`.
/// (The library panics on indices out of range and at the maximum edge
/// index; the bounds keep both out of reach.)
#[verifier::external_body]
pub(crate) fn graph_add_edge(g: &mut DepGraph, a: usize, b: usize)
    requires
        (a as nat) < graph_node_count(*old(g)),
        (b as nat) < graph_node_count(*old(g)),
        graph_edge_count(*old(g)) < 0xFFFF_FFFF,
    ensures
        graph_node_count(*final(g)) == graph_node_count(*old(g)),
        graph_edge_count(*final(g)) == graph_edge_count(*old(g)) + 1,
        graph_edges(*final(g)) == graph_edges(*old(g)).insert((a as int, b as int)),
{
    g.inner.add_edge(petgraph::graph::NodeIndex::new(a), petgraph::graph::NodeIndex::new(b), ());
}

/// Relies on `petgraph::algo::toposort`: on success the order holds every
/// node exactly once, each before the nodes it points at; it fails exactly
/// when the graph holds a cycle.
#[verifier::external_body]
pub(crate) fn graph_toposort(g: &DepGraph) -> (r: Result<Vec<usize>, CacheError>)
    ensures
        r matches Ok(order) ==> {
            &&& order@.len() == graph_node_count(*g)
            &&& (forall|i: int|
                0 <= i < order@.len() ==> (#[trigger] order@[i] as nat) < graph_node_count(*g))
            &&& (forall|i: int, j: int|
                0 <= i < j < order@.len() ==> order@[i] != order@[j])
            &&& (forall|v: usize| (v as nat) < graph_node_count(*g) ==> #[trigger] order@.contains(
                v,
            ))
            &&& respects_edges(order@, graph_edges(*g))
        },
        r matches Err(e) ==> e == CacheError::CycleDetected && has_cycle(graph_edges(*g)),
{
    match petgraph::algo::toposort(&g.inner, None) {
        Ok(order) => Ok(order.into_iter().map(|n| n.index()).collect()),
        Err(_) => Err(CacheError::CycleDetected),
    }
}

/// The value `v` names some node listed in the order.
pub open spec fn value_in_order(order: Seq<usize>, v: int) -> bool {
    exists|k: int| 0 <= k < order.len() && (#[trigger] order[k] as int) == v
}

/// Positions in a topological order rise strictly along any edge-walk:
/// wherever the walk's start and its `n`-th stop sit in the order, the
/// start sits earlier. (So a walk through the edges can never return to
/// its start: the order refutes any cycle.)
pub proof fn lemma_walk_positions(order: Seq<usize>, edges: Set<(int, int)>, p: Seq<int>, n: int)
    requires
        respects_edges(order, edges),
        forall|i: int, j: int| 0 <= i < j < order.len() ==> order[i] != order[j],
        forall|i: int| 0 <= i < p.len() ==> #[trigger] value_in_order(order, p[i]),
        forall|i: int| 0 <= i < p.len() - 1 ==> #[trigger] edges.contains((p[i], p[i + 1])),
        1 <= n < p.len(),
    ensures
        forall|k0: int, kn: int|
            0 <= k0 < order.len() && 0 <= kn < order.len() && order[k0] as int == p[0]
                && order[kn] as int == p[n] ==> k0 < kn,
    decreases n,
{
    if n == 1 {
        assert forall|k0: int, kn: int|
            0 <= k0 < order.len() && 0 <= kn < order.len() && order[k0] as int == p[0]
                && order[kn] as int == p[1] implies k0 < kn by {
            let i: int = 0;
            assert(edges.contains((p[i], p[i + 1])));
            assert(edges.contains((order[k0] as int, order[kn] as int)));
        }
    } else {
        lemma_walk_positions(order, edges, p, n - 1);
        assert forall|k0: int, kn: int|
            0 <= k0 < order.len() && 0 <= kn < order.len() && order[k0] as int == p[0]
                && order[kn] as int == p[n] implies k0 < kn by {
            assert(value_in_order(order, p[n - 1]));
            let km = choose|k: int|
                0 <= k < order.len() && (#[trigger] order[k] as int) == p[n - 1];
            assert(k0 < km);
            let i: int = n - 1;
            assert(edges.contains((p[i], p[i + 1])));
            assert(edges.contains((order[km] as int, order[kn] as int)));
        }
    }
}

} // verus!
