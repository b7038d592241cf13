//! The playing board: an undirected `petgraph` graph, seen through the list of
//! its edges, together with walks and hop distances over that list.

use petgraph::algo::dijkstra;
use petgraph::graph::{Graph, NodeIndex};
use petgraph::Undirected;
use vstd::prelude::*;

verus! {

/// `petgraph::graph::Graph`, taken as it is: nothing inside it is looked at.
#[verifier::external_type_specification]
#[verifier::external_body]
#[verifier::reject_recursive_types(N)]
#[verifier::reject_recursive_types(E)]
#[verifier::reject_recursive_types(Ty)]
#[verifier::reject_recursive_types(Ix)]
pub struct ExGraph<N, E, Ty, Ix>(Graph<N, E, Ty, Ix>);

/// `petgraph::Undirected`, the marker of a graph whose edges have no
/// direction.
#[verifier::external_type_specification]
#[verifier::external_body]
pub struct ExUndirected(Undirected);

/// The number of nodes of a board; they are numbered from 0.
pub uninterp spec fn board_nodes(g: Graph<u32, i32, Undirected>) -> nat;

/// The edges of a board as pairs of node numbers, in the order of their
/// indices, which is the order in which they were added.
pub uninterp spec fn board_edges(g: Graph<u32, i32, Undirected>) -> Seq<(usize, usize)>;

/// The weights of the edges of a board, in the order of `board_edges`.
pub uninterp spec fn board_weights(g: Graph<u32, i32, Undirected>) -> Seq<i32>;

/// The largest number of nodes a board may have for hop counts to fit `i32`.
pub const MAX_NODES: usize = 0x7fff_ffff;

// ---------------------------------------------------------------------------
// Adjacency
// ---------------------------------------------------------------------------

/// The node at the other end of `e` as seen from `a`, if `e` touches `a`.
pub open spec fn far_end(e: (usize, usize), a: usize) -> Option<usize> {
    if e.0 == a {
        Some(e.1)
    } else if e.1 == a {
        Some(e.0)
    } else {
        None
    }
}

/// The neighbours of `a`, one entry for each edge that touches `a`, in the
/// order of the edges. A loop at `a` lists `a` once.
pub open spec fn neighbor_list(edges: Seq<(usize, usize)>, a: usize) -> Seq<usize>
    decreases edges.len(),
{
    if edges.len() == 0 {
        Seq::empty()
    } else {
        let rest = neighbor_list(edges.drop_last(), a);
        match far_end(edges.last(), a) {
            Some(b) => rest.push(b),
            None => rest,
        }
    }
}

/// Some edge joins `a` and `b`.
pub open spec fn adjacent(edges: Seq<(usize, usize)>, a: usize, b: usize) -> bool {
    neighbor_list(edges, a).contains(b)
}

/// The number of edges that touch `a`.
pub open spec fn degree_of(edges: Seq<(usize, usize)>, a: usize) -> nat {
    neighbor_list(edges, a).len()
}

/// How often `v` occurs in `s`.
pub open spec fn occurrences(s: Seq<usize>, v: usize) -> nat
    decreases s.len(),
{
    if s.len() == 0 {
        0
    } else {
        occurrences(s.drop_last(), v) + if s.last() == v {
            1nat
        } else {
            0nat
        }
    }
}

/// How many edges join `a` and `b`.
pub open spec fn multiplicity(edges: Seq<(usize, usize)>, a: usize, b: usize) -> nat {
    occurrences(neighbor_list(edges, a), b)
}

/// Every edge ends in nodes below `n`.
pub open spec fn edges_within(edges: Seq<(usize, usize)>, n: nat) -> bool {
    forall|k: int| 0 <= k < edges.len() ==> (#[trigger] edges[k]).0 < n && edges[k].1 < n
}

/// There is a node, and every node below `n` has a neighbour.
pub open spec fn habitable(edges: Seq<(usize, usize)>, n: nat) -> bool {
    n >= 1 && forall|a: usize| a < n ==> #[trigger] degree_of(edges, a) >= 1
}

// ---------------------------------------------------------------------------
// Walks and distances
// ---------------------------------------------------------------------------

/// `w` is a non-empty list of nodes in which each is adjacent to the next.
pub open spec fn is_walk(edges: Seq<(usize, usize)>, w: Seq<usize>) -> bool {
    &&& w.len() >= 1
    &&& forall|i: int| 0 <= i < w.len() - 1 ==> adjacent(edges, #[trigger] w[i], w[i + 1])
}

/// `w` is a walk that starts in `a` and ends in `b`.
pub open spec fn links(edges: Seq<(usize, usize)>, w: Seq<usize>, a: usize, b: usize) -> bool {
    is_walk(edges, w) && w.first() == a && w.last() == b
}

/// Some walk leads from `a` to `b`.
pub open spec fn reachable(edges: Seq<(usize, usize)>, a: usize, b: usize) -> bool {
    exists|w: Seq<usize>| links(edges, w, a, b)
}

/// `d` is the number of steps of a shortest walk from `a` to `b`.
pub open spec fn is_distance(edges: Seq<(usize, usize)>, a: usize, b: usize, d: int) -> bool {
    &&& exists|w: Seq<usize>| #[trigger] links(edges, w, a, b) && w.len() == d + 1
    &&& forall|w: Seq<usize>| #[trigger] links(edges, w, a, b) ==> w.len() >= d + 1
}

/// The number of steps of a shortest walk from `a` to `b`, if there is a walk.
pub open spec fn hop_distance(edges: Seq<(usize, usize)>, a: usize, b: usize) -> Option<int> {
    if reachable(edges, a, b) {
        Some(choose|d: int| is_distance(edges, a, b, d))
    } else {
        None
    }
}

/// Every node below `n` can be reached from every other.
pub open spec fn connected(edges: Seq<(usize, usize)>, n: nat) -> bool {
    forall|a: usize, b: usize| a < n && b < n ==> #[trigger] reachable(edges, a, b)
}

// ---------------------------------------------------------------------------
// Calls into petgraph
// ---------------------------------------------------------------------------

/// `Graph::new_undirected`: a board without nodes and without edges.
#[verifier::external_body]
pub(crate) fn empty_board() -> (g: Graph<u32, i32, Undirected>)
    ensures
        board_nodes(g) == 0,
        board_edges(g) == Seq::<(usize, usize)>::empty(),
        board_weights(g) == Seq::<i32>::empty(),
{
    Graph::new_undirected()
}

/// `Graph::node_count`: the number of nodes. Every edge of a `Graph` ends in
/// nodes that exist, since `add_edge` refuses any other.
#[verifier::external_body]
pub(crate) fn node_count(g: &Graph<u32, i32, Undirected>) -> (n: usize)
    ensures
        n == board_nodes(*g),
        edges_within(board_edges(*g), n as nat),
{
    g.node_count()
}

/// `Graph::add_node`: one more node, numbered after those present; the edges
/// and their weights stay. It panics once the `u32` index is used up, so that is ruled out.
#[verifier::external_body]
pub(crate) fn push_node(g: &mut Graph<u32, i32, Undirected>, label: u32)
    requires
        board_nodes(*old(g)) < u32::MAX,
    ensures
        board_nodes(*final(g)) == board_nodes(*old(g)) + 1,
        board_edges(*final(g)) == board_edges(*old(g)),
        board_weights(*final(g)) == board_weights(*old(g)),
{
    g.add_node(label);
}

/// `Graph::add_edge`: one more edge between two existing nodes, with the given
/// weight, after those present; parallel edges and loops are accepted. It panics on a missing node
/// and once the `u32` index is used up, so both are ruled out.
#[verifier::external_body]
pub(crate) fn push_edge(g: &mut Graph<u32, i32, Undirected>, a: usize, b: usize, weight: i32)
    requires
        a < board_nodes(*old(g)),
        b < board_nodes(*old(g)),
        board_edges(*old(g)).len() < u32::MAX,
    ensures
        board_nodes(*final(g)) == board_nodes(*old(g)),
        board_edges(*final(g)) == board_edges(*old(g)).push((a, b)),
        board_weights(*final(g)) == board_weights(*old(g)).push(weight),
{
    g.add_edge(NodeIndex::new(a), NodeIndex::new(b), weight);
}

/// `Graph::neighbors`: for each edge that touches `a`, the node at its other
/// end, a loop counted once. The crate calls the order arbitrary, so only the
/// entries with their numbers of occurrences are stated.
#[verifier::external_body]
pub(crate) fn neighbors_of(g: &Graph<u32, i32, Undirected>, a: usize) -> (r: Vec<usize>)
    requires
        a < board_nodes(*g),
    ensures
        r@.to_multiset() == neighbor_list(board_edges(*g), a).to_multiset(),
{
    g.neighbors(NodeIndex::new(a)).map(|n| n.index()).collect()
}

/// `Graph::contains_edge`: whether some edge joins `a` and `b`, in either
/// direction.
#[verifier::external_body]
pub(crate) fn has_edge(g: &Graph<u32, i32, Undirected>, a: usize, b: usize) -> (r: bool)
    requires
        a < board_nodes(*g),
        b < board_nodes(*g),
    ensures
        r == adjacent(board_edges(*g), a, b),
{
    g.contains_edge(NodeIndex::new(a), NodeIndex::new(b))
}

/// The cost of crossing one edge.
pub(crate) fn hop_cost() -> (c: i32)
    ensures
        c == 1,
{
    1
}

/// `petgraph::algo::dijkstra` without a goal and with every edge costing one
/// hop: for each node the length of a shortest walk from `start`, and nothing
/// for a node that no walk reaches. The result is laid out by node number.
#[verifier::external_body]
pub(crate) fn distances_from(g: &Graph<u32, i32, Undirected>, start: usize) -> (r: Vec<
    Option<i32>,
>)
    requires
        start < board_nodes(*g),
        board_nodes(*g) <= MAX_NODES,
    ensures
        r@.len() == board_nodes(*g),
        forall|v: usize|
            v < r@.len() ==> match #[trigger] r@[v as int] {
                Some(d) => is_distance(board_edges(*g), start, v, d as int),
                None => !reachable(board_edges(*g), start, v),
            },
{
    let scores = dijkstra(g, NodeIndex::new(start), None, |_| hop_cost());
    g.node_indices().map(|v| scores.get(&v).copied()).collect()
}

/// `Clone::clone` of a `Graph`: the same nodes, edges and weights.
#[verifier::external_body]
pub(crate) fn copy_board(g: &Graph<u32, i32, Undirected>) -> (r: Graph<u32, i32, Undirected>)
    ensures
        board_nodes(r) == board_nodes(*g),
        board_edges(r) == board_edges(*g),
        board_weights(r) == board_weights(*g),
{
    g.clone()
}

} // verus!
