//! Facts about adjacency, walks and hop distances on a list of edges.

use crate::board::{
    adjacent, connected, degree_of, edges_within, far_end, hop_distance, is_distance, is_walk,
    links, multiplicity, neighbor_list, occurrences, reachable,
};
use vstd::prelude::*;

verus! {

/// Counting by hand agrees with the multiset of a sequence.
pub proof fn lemma_occurrences_count(s: Seq<usize>, v: usize)
    ensures
        occurrences(s, v) == s.to_multiset().count(v),
    decreases s.len(),
{
    broadcast use vstd::seq_lib::group_to_multiset_ensures;

    if s.len() == 0 {
        assert(!s.contains(v));
    } else {
        lemma_occurrences_count(s.drop_last(), v);
        assert(s =~= s.drop_last().push(s.last()));
    }
}

/// A value occurs in a sequence exactly if its count there is positive.
pub proof fn lemma_occurrences_contains(s: Seq<usize>, v: usize)
    ensures
        occurrences(s, v) > 0 <==> s.contains(v),
    decreases s.len(),
{
    if s.len() > 0 {
        lemma_occurrences_contains(s.drop_last(), v);
        if s.contains(v) {
            let k = choose|k: int| 0 <= k < s.len() && s[k] == v;
            if k < s.len() - 1 {
                assert(s.drop_last()[k] == v);
            }
        }
        if s.drop_last().contains(v) {
            let k = choose|k: int| 0 <= k < s.drop_last().len() && s.drop_last()[k] == v;
            assert(s[k] == v);
        }
    }
}

/// Two sequences with the same multiset have the same length and the same
/// counts.
pub proof fn lemma_same_entries(s: Seq<usize>, t: Seq<usize>)
    requires
        s.to_multiset() == t.to_multiset(),
    ensures
        s.len() == t.len(),
        forall|v: usize| #[trigger] occurrences(s, v) == occurrences(t, v),
        forall|v: usize| s.contains(v) <==> t.contains(v),
{
    broadcast use vstd::seq_lib::group_to_multiset_ensures;

    assert(s.len() == s.to_multiset().len());
    assert(t.len() == t.to_multiset().len());
    assert forall|v: usize| #[trigger] occurrences(s, v) == occurrences(t, v) by {
        lemma_occurrences_count(s, v);
        lemma_occurrences_count(t, v);
    }
    assert forall|v: usize| s.contains(v) <==> t.contains(v) by {
        lemma_occurrences_contains(s, v);
        lemma_occurrences_contains(t, v);
    }
}

/// As many edges join `a` to `b` as join `b` to `a`.
pub proof fn lemma_multiplicity_symmetric(edges: Seq<(usize, usize)>, a: usize, b: usize)
    ensures
        multiplicity(edges, a, b) == multiplicity(edges, b, a),
    decreases edges.len(),
{
    if edges.len() > 0 {
        lemma_multiplicity_symmetric(edges.drop_last(), a, b);
        let e = edges.last();
        let na = neighbor_list(edges.drop_last(), a);
        let nb = neighbor_list(edges.drop_last(), b);
        match far_end(e, a) {
            Some(x) => {
                assert(na.push(x).drop_last() =~= na);
            },
            None => {},
        }
        match far_end(e, b) {
            Some(y) => {
                assert(nb.push(y).drop_last() =~= nb);
            },
            None => {},
        }
    }
}

/// Adjacency does not depend on the direction.
pub proof fn lemma_adjacent_symmetric(edges: Seq<(usize, usize)>, a: usize, b: usize)
    ensures
        adjacent(edges, a, b) == adjacent(edges, b, a),
{
    lemma_multiplicity_symmetric(edges, a, b);
    lemma_occurrences_contains(neighbor_list(edges, a), b);
    lemma_occurrences_contains(neighbor_list(edges, b), a);
}

/// The neighbours of a node lie on the board when all edges do.
pub proof fn lemma_neighbors_within(edges: Seq<(usize, usize)>, n: nat, a: usize)
    requires
        edges_within(edges, n),
    ensures
        forall|k: int|
            0 <= k < neighbor_list(edges, a).len() ==> #[trigger] neighbor_list(edges, a)[k] < n,
    decreases edges.len(),
{
    if edges.len() > 0 {
        let init = edges.drop_last();
        assert(edges_within(init, n)) by {
            assert forall|k: int| 0 <= k < init.len() implies (#[trigger] init[k]).0 < n
                && init[k].1 < n by {
                assert(init[k] == edges[k]);
            }
        }
        lemma_neighbors_within(init, n, a);
        let e = edges[edges.len() - 1];
        assert(e.0 < n && e.1 < n);
        let rest = neighbor_list(init, a);
        let list = neighbor_list(edges, a);
        assert forall|k: int| 0 <= k < list.len() implies #[trigger] list[k] < n by {
            if k < rest.len() {
                assert(list[k] == rest[k]);
            }
        }
    }
}

/// A node that is not on the board has no neighbour.
pub proof fn lemma_no_neighbors_outside(edges: Seq<(usize, usize)>, n: nat, a: usize)
    requires
        edges_within(edges, n),
        a >= n,
    ensures
        degree_of(edges, a) == 0,
    decreases edges.len(),
{
    if edges.len() > 0 {
        let init = edges.drop_last();
        assert(edges_within(init, n)) by {
            assert forall|k: int| 0 <= k < init.len() implies (#[trigger] init[k]).0 < n
                && init[k].1 < n by {
                assert(init[k] == edges[k]);
            }
        }
        lemma_no_neighbors_outside(init, n, a);
        let e = edges[edges.len() - 1];
        assert(e.0 < n && e.1 < n);
    }
}

/// One more edge takes no neighbour away.
pub proof fn lemma_more_edges_keep_adjacent(
    edges: Seq<(usize, usize)>,
    e: (usize, usize),
    a: usize,
    b: usize,
)
    requires
        adjacent(edges, a, b),
    ensures
        adjacent(edges.push(e), a, b),
{
    let more = edges.push(e);
    assert(more.drop_last() =~= edges);
    let old_list = neighbor_list(edges, a);
    let k = choose|k: int| 0 <= k < old_list.len() && old_list[k] == b;
    match far_end(e, a) {
        Some(x) => {
            assert(neighbor_list(more, a) == old_list.push(x));
            assert(old_list.push(x)[k] == b);
        },
        None => {},
    }
}

/// The edge just added joins its two ends.
pub proof fn lemma_new_edge_adjacent(edges: Seq<(usize, usize)>, a: usize, b: usize)
    ensures
        adjacent(edges.push((a, b)), a, b),
        adjacent(edges.push((a, b)), b, a),
{
    let more = edges.push((a, b));
    assert(more.drop_last() =~= edges);
    let list = neighbor_list(edges, a);
    assert(neighbor_list(more, a) == list.push(b));
    assert(list.push(b)[list.len() as int] == b);
    lemma_adjacent_symmetric(more, a, b);
}

/// Every edge of the list joins its two ends.
pub proof fn lemma_edge_adjacent(edges: Seq<(usize, usize)>, k: int)
    requires
        0 <= k < edges.len(),
    ensures
        adjacent(edges, edges[k].0, edges[k].1),
        adjacent(edges, edges[k].1, edges[k].0),
    decreases edges.len(),
{
    let init = edges.drop_last();
    let e = edges.last();
    assert(edges =~= init.push(e));
    if k == edges.len() - 1 {
        lemma_new_edge_adjacent(init, e.0, e.1);
    } else {
        lemma_edge_adjacent(init, k);
        lemma_more_edges_keep_adjacent(init, e, edges[k].0, edges[k].1);
        lemma_more_edges_keep_adjacent(init, e, edges[k].1, edges[k].0);
    }
}

/// A node with a neighbour has a degree of at least one.
pub proof fn lemma_adjacent_degree(edges: Seq<(usize, usize)>, a: usize, b: usize)
    requires
        adjacent(edges, a, b),
    ensures
        degree_of(edges, a) >= 1,
{
}

/// One more edge raises the degree of each of its ends by one, of a loop's end
/// by one, and of no other node.
pub proof fn lemma_degree_after_push(edges: Seq<(usize, usize)>, e: (usize, usize), a: usize)
    ensures
        degree_of(edges.push(e), a) == degree_of(edges, a) + if e.0 == a || e.1 == a {
            1nat
        } else {
            0nat
        },
{
    assert(edges.push(e).drop_last() =~= edges);
}

/// One more edge keeps every walk a walk.
pub proof fn lemma_more_edges_keep_walk(
    edges: Seq<(usize, usize)>,
    e: (usize, usize),
    w: Seq<usize>,
)
    requires
        is_walk(edges, w),
    ensures
        is_walk(edges.push(e), w),
{
    assert forall|i: int| 0 <= i < w.len() - 1 implies adjacent(
        edges.push(e),
        #[trigger] w[i],
        w[i + 1],
    ) by {
        lemma_more_edges_keep_adjacent(edges, e, w[i], w[i + 1]);
    }
}

/// One more edge keeps a connected board connected.
pub proof fn lemma_more_edges_keep_connected(edges: Seq<(usize, usize)>, e: (usize, usize), n: nat)
    requires
        connected(edges, n),
    ensures
        connected(edges.push(e), n),
{
    assert forall|a: usize, b: usize| a < n && b < n implies #[trigger] reachable(
        edges.push(e),
        a,
        b,
    ) by {
        assert(reachable(edges, a, b));
        let w = choose|w: Seq<usize>| links(edges, w, a, b);
        lemma_more_edges_keep_walk(edges, e, w);
        assert(links(edges.push(e), w, a, b));
    }
}

/// A walk read backwards is a walk between the same nodes.
pub proof fn lemma_walk_reverse(edges: Seq<(usize, usize)>, w: Seq<usize>, a: usize, b: usize)
    requires
        links(edges, w, a, b),
    ensures
        links(edges, w.reverse(), b, a),
        w.reverse().len() == w.len(),
{
    let r = w.reverse();
    assert forall|i: int| 0 <= i < r.len() - 1 implies adjacent(edges, #[trigger] r[i], r[i + 1]) by {
        let j = w.len() - 2 - i;
        assert(adjacent(edges, w[j], w[j + 1]));
        lemma_adjacent_symmetric(edges, w[j], w[j + 1]);
    }
}

/// A walk to `b` followed by a walk from `b` is a walk.
pub proof fn lemma_walk_join(
    edges: Seq<(usize, usize)>,
    u: Seq<usize>,
    v: Seq<usize>,
    a: usize,
    b: usize,
    c: usize,
)
    requires
        links(edges, u, a, b),
        links(edges, v, b, c),
    ensures
        links(edges, u + v.drop_first(), a, c),
        (u + v.drop_first()).len() == u.len() + v.len() - 1,
{
    let w = u + v.drop_first();
    assert forall|i: int| 0 <= i < w.len() - 1 implies adjacent(edges, #[trigger] w[i], w[i + 1]) by {
        if i < u.len() - 1 {
            assert(adjacent(edges, u[i], u[i + 1]));
        } else {
            let j = i - (u.len() - 1);
            assert(adjacent(edges, v[j], v[j + 1]));
            assert(w[i + 1] == v[j + 1]);
            if j == 0 {
                assert(w[i] == u.last());
            } else {
                assert(w[i] == v[j]);
            }
        }
    }
}

/// A walk with one more step to a neighbour of its end is a walk.
pub proof fn lemma_walk_extend(
    edges: Seq<(usize, usize)>,
    w: Seq<usize>,
    a: usize,
    b: usize,
    c: usize,
)
    requires
        links(edges, w, a, b),
        adjacent(edges, b, c),
    ensures
        links(edges, w.push(c), a, c),
{
    let x = w.push(c);
    assert forall|i: int| 0 <= i < x.len() - 1 implies adjacent(edges, #[trigger] x[i], x[i + 1]) by {
        if i < w.len() - 1 {
            assert(adjacent(edges, w[i], w[i + 1]));
        }
    }
}

/// Among the walks between two nodes there is a shortest one.
pub proof fn lemma_shortest_walk(edges: Seq<(usize, usize)>, a: usize, b: usize, w: Seq<usize>)
    requires
        links(edges, w, a, b),
    ensures
        exists|d: int| 0 <= d < w.len() && is_distance(edges, a, b, d),
    decreases w.len(),
{
    if forall|v: Seq<usize>| #[trigger] links(edges, v, a, b) ==> v.len() >= w.len() {
        assert(is_distance(edges, a, b, w.len() - 1));
    } else {
        let v = choose|v: Seq<usize>| #[trigger] links(edges, v, a, b) && v.len() < w.len();
        lemma_shortest_walk(edges, a, b, v);
    }
}

/// Two nodes have at most one distance.
pub proof fn lemma_distance_unique(
    edges: Seq<(usize, usize)>,
    a: usize,
    b: usize,
    d: int,
    e: int,
)
    requires
        is_distance(edges, a, b, d),
        is_distance(edges, a, b, e),
    ensures
        d == e,
{
}

/// `hop_distance` is the one value that `is_distance` accepts.
pub proof fn lemma_hop_distance(edges: Seq<(usize, usize)>, a: usize, b: usize)
    ensures
        forall|d: int| is_distance(edges, a, b, d) <==> hop_distance(edges, a, b) == Some(d),
        hop_distance(edges, a, b) is Some <==> reachable(edges, a, b),
        hop_distance(edges, a, b) matches Some(d) ==> d >= 0,
{
    if reachable(edges, a, b) {
        let w = choose|w: Seq<usize>| links(edges, w, a, b);
        lemma_shortest_walk(edges, a, b, w);
        let d0 = choose|d: int| is_distance(edges, a, b, d);
        assert(is_distance(edges, a, b, d0));
        assert forall|d: int| is_distance(edges, a, b, d) implies d == d0 by {
            lemma_distance_unique(edges, a, b, d, d0);
        }
    } else {
        assert forall|d: int| !is_distance(edges, a, b, d) by {
            if is_distance(edges, a, b, d) {
                let w = choose|w: Seq<usize>| #[trigger] links(edges, w, a, b) && w.len() == d + 1;
                assert(links(edges, w, a, b));
            }
        }
    }
}

/// The distance from a node to itself is zero.
pub proof fn lemma_distance_to_self(edges: Seq<(usize, usize)>, a: usize)
    ensures
        is_distance(edges, a, a, 0),
        hop_distance(edges, a, a) == Some(0int),
{
    let w = seq![a];
    assert(links(edges, w, a, a));
    assert(w.len() == 1);
    assert(is_distance(edges, a, a, 0));
    lemma_hop_distance(edges, a, a);
}

/// The distance from `a` to `b` is the distance from `b` to `a`, and the one
/// is missing exactly if the other is.
pub proof fn lemma_distance_symmetric(edges: Seq<(usize, usize)>, a: usize, b: usize)
    ensures
        hop_distance(edges, a, b) == hop_distance(edges, b, a),
{
    lemma_hop_distance(edges, a, b);
    lemma_hop_distance(edges, b, a);
    if reachable(edges, a, b) {
        let d = hop_distance(edges, a, b)->0;
        assert(is_distance(edges, a, b, d));
        lemma_distance_mirror(edges, a, b, d);
    } else if reachable(edges, b, a) {
        let w = choose|w: Seq<usize>| links(edges, w, b, a);
        lemma_walk_reverse(edges, w, b, a);
        assert(links(edges, w.reverse(), a, b));
    }
}

/// A shortest walk read backwards is a shortest walk.
pub proof fn lemma_distance_mirror(edges: Seq<(usize, usize)>, a: usize, b: usize, d: int)
    requires
        is_distance(edges, a, b, d),
    ensures
        is_distance(edges, b, a, d),
{
    let w = choose|w: Seq<usize>| #[trigger] links(edges, w, a, b) && w.len() == d + 1;
    lemma_walk_reverse(edges, w, a, b);
    assert(links(edges, w.reverse(), b, a) && w.reverse().len() == d + 1);
    assert forall|v: Seq<usize>| #[trigger] links(edges, v, b, a) implies v.len() >= d + 1 by {
        lemma_walk_reverse(edges, v, b, a);
        assert(links(edges, v.reverse(), a, b));
    }
}

/// Neighbours differ in their distance from any node by at most one.
pub proof fn lemma_distance_step(
    edges: Seq<(usize, usize)>,
    s: usize,
    a: usize,
    b: usize,
    d: int,
    e: int,
)
    requires
        is_distance(edges, s, a, d),
        is_distance(edges, s, b, e),
        adjacent(edges, a, b),
    ensures
        e <= d + 1,
        d <= e + 1,
{
    let w = choose|w: Seq<usize>| #[trigger] links(edges, w, s, a) && w.len() == d + 1;
    lemma_walk_extend(edges, w, s, a, b);
    assert(links(edges, w.push(b), s, b));
    let v = choose|v: Seq<usize>| #[trigger] links(edges, v, s, b) && v.len() == e + 1;
    lemma_adjacent_symmetric(edges, a, b);
    lemma_walk_extend(edges, v, s, b, a);
    assert(links(edges, v.push(a), s, a));
}

/// A node at distance `d >= 1` from `s` has a neighbour at distance `d - 1`.
pub proof fn lemma_closer_neighbor(edges: Seq<(usize, usize)>, s: usize, a: usize, d: int)
    requires
        is_distance(edges, s, a, d),
        d >= 1,
    ensures
        exists|p: usize| #[trigger] adjacent(edges, a, p) && is_distance(edges, s, p, d - 1),
{
    let w = choose|w: Seq<usize>| #[trigger] links(edges, w, s, a) && w.len() == d + 1;
    let p = w[d - 1];
    let u = w.drop_last();
    assert(adjacent(edges, w[d - 1], w[d - 1 + 1]));
    lemma_adjacent_symmetric(edges, p, a);
    assert forall|i: int| 0 <= i < u.len() - 1 implies adjacent(edges, #[trigger] u[i], u[i + 1]) by {
        assert(adjacent(edges, w[i], w[i + 1]));
    }
    assert(links(edges, u, s, p) && u.len() == d - 1 + 1);
    assert forall|v: Seq<usize>| #[trigger] links(edges, v, s, p) implies v.len() >= d - 1 + 1 by {
        lemma_walk_extend(edges, v, s, p, a);
        assert(links(edges, v.push(a), s, a));
    }
    assert(adjacent(edges, a, p) && is_distance(edges, s, p, d - 1));
}

/// Two nodes are at distance zero exactly if they are the same node.
pub proof fn lemma_distance_zero(edges: Seq<(usize, usize)>, a: usize, b: usize)
    ensures
        is_distance(edges, a, b, 0) <==> a == b,
{
    if is_distance(edges, a, b, 0) {
        let w = choose|w: Seq<usize>| #[trigger] links(edges, w, a, b) && w.len() == 0 + 1;
        assert(w.first() == w.last());
    }
    if a == b {
        lemma_distance_to_self(edges, a);
    }
}

/// A board on which each node but the first is adjacent to the one before it
/// is connected.
pub proof fn lemma_chain_connected(edges: Seq<(usize, usize)>, n: nat)
    requires
        n <= usize::MAX,
        forall|i: int| 1 <= i < n ==> #[trigger] adjacent(edges, (i - 1) as usize, i as usize),
    ensures
        connected(edges, n),
{
    assert forall|v: usize| v < n implies #[trigger] reachable(edges, 0, v) by {
        lemma_chain_reaches(edges, n, v);
    }
    lemma_connected_from_root(edges, n, 0);
}

proof fn lemma_chain_reaches(edges: Seq<(usize, usize)>, n: nat, v: usize)
    requires
        n <= usize::MAX,
        v < n,
        forall|i: int| 1 <= i < n ==> #[trigger] adjacent(edges, (i - 1) as usize, i as usize),
    ensures
        reachable(edges, 0, v),
    decreases v,
{
    if v == 0 {
        assert(links(edges, seq![0usize], 0, 0));
    } else {
        let u = (v - 1) as usize;
        lemma_chain_reaches(edges, n, u);
        let w = choose|w: Seq<usize>| links(edges, w, 0, u);
        assert(adjacent(edges, (v as int - 1) as usize, v as int as usize));
        lemma_walk_extend(edges, w, 0, u, v);
        assert(links(edges, w.push(v), 0, v));
    }
}

/// A board on which one node reaches all nodes is connected.
pub proof fn lemma_connected_from_root(edges: Seq<(usize, usize)>, n: nat, root: usize)
    requires
        forall|v: usize| v < n ==> #[trigger] reachable(edges, root, v),
    ensures
        connected(edges, n),
{
    assert forall|a: usize, b: usize| a < n && b < n implies #[trigger] reachable(edges, a, b) by {
        assert(reachable(edges, root, a));
        assert(reachable(edges, root, b));
        let u = choose|u: Seq<usize>| links(edges, u, root, a);
        let v = choose|v: Seq<usize>| links(edges, v, root, b);
        lemma_walk_reverse(edges, u, root, a);
        lemma_walk_join(edges, u.reverse(), v, a, root, b);
    }
}

} // verus!
