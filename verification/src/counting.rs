//! Counting the nodes that meet a condition, and why a board to which few
//! edges were added still has room for one more.

use crate::board::{adjacent, degree_of, far_end, neighbor_list};
use crate::walks::lemma_degree_after_push;
use vstd::prelude::*;

verus! {

/// The number of nodes below `n` of which `p` holds.
pub open spec fn count_below(n: nat, p: spec_fn(usize) -> bool) -> nat
    decreases n,
{
    if n == 0 {
        0
    } else {
        count_below((n - 1) as nat, p) + if p((n - 1) as usize) {
            1nat
        } else {
            0nat
        }
    }
}

/// Being the node `v`.
pub open spec fn is_node(v: usize) -> spec_fn(usize) -> bool {
    |x: usize| x == v
}

/// Being a neighbour of `s`.
pub open spec fn next_to(edges: Seq<(usize, usize)>, s: usize) -> spec_fn(usize) -> bool {
    |x: usize| adjacent(edges, s, x)
}

/// Having more than `cap` neighbours.
pub open spec fn busy(edges: Seq<(usize, usize)>, cap: nat) -> spec_fn(usize) -> bool {
    |x: usize| degree_of(edges, x) > cap
}

/// No more than `n` nodes below `n` meet a condition, and where fewer do, some
/// node below `n` fails it.
pub proof fn lemma_count_gap(n: nat, p: spec_fn(usize) -> bool)
    requires
        n <= usize::MAX,
    ensures
        count_below(n, p) <= n,
        count_below(n, p) < n ==> exists|x: usize| x < n && !#[trigger] p(x),
    decreases n,
{
    if n > 0 {
        lemma_count_gap((n - 1) as nat, p);
        if count_below(n, p) < n {
            if p((n - 1) as usize) {
                let x = choose|x: usize| x < n - 1 && !#[trigger] p(x);
                assert(x < n && !p(x));
            } else {
                assert(((n - 1) as usize) < n && !p((n - 1) as usize));
            }
        }
    }
}

/// A condition that no node below `n` meets is counted zero times.
pub proof fn lemma_count_none(n: nat, p: spec_fn(usize) -> bool)
    requires
        n <= usize::MAX,
        forall|x: usize| x < n ==> !#[trigger] p(x),
    ensures
        count_below(n, p) == 0,
    decreases n,
{
    if n > 0 {
        lemma_count_none((n - 1) as nat, p);
    }
}

/// A condition that holds only where one of two others holds is counted no
/// more often than the two together.
pub proof fn lemma_count_either(
    n: nat,
    r: spec_fn(usize) -> bool,
    p: spec_fn(usize) -> bool,
    q: spec_fn(usize) -> bool,
)
    requires
        n <= usize::MAX,
        forall|x: usize| x < n && #[trigger] r(x) ==> p(x) || q(x),
    ensures
        count_below(n, r) <= count_below(n, p) + count_below(n, q),
    decreases n,
{
    if n > 0 {
        lemma_count_either((n - 1) as nat, r, p, q);
    }
}

/// One node is counted at most once.
pub proof fn lemma_count_one(n: nat, v: usize)
    requires
        n <= usize::MAX,
    ensures
        count_below(n, is_node(v)) <= 1,
    decreases n,
{
    if n > 0 {
        if v == (n - 1) as usize {
            lemma_count_none((n - 1) as nat, is_node(v));
        } else {
            lemma_count_one((n - 1) as nat, v);
        }
    }
}

/// A node has no more different neighbours than edges that touch it.
pub proof fn lemma_count_adjacent(edges: Seq<(usize, usize)>, n: nat, s: usize)
    requires
        n <= usize::MAX,
    ensures
        count_below(n, next_to(edges, s)) <= degree_of(edges, s),
    decreases edges.len(),
{
    if edges.len() == 0 {
        lemma_count_none(n, next_to(edges, s));
    } else {
        let init = edges.drop_last();
        lemma_count_adjacent(init, n, s);
        match far_end(edges.last(), s) {
            Some(b) => {
                assert forall|x: usize| x < n && #[trigger] next_to(edges, s)(x) implies next_to(
                    init,
                    s,
                )(x) || is_node(b)(x) by {
                    let list = neighbor_list(init, s).push(b);
                    let at = choose|at: int| 0 <= at < list.len() && list[at] == x;
                    if at < list.len() - 1 {
                        assert(neighbor_list(init, s)[at] == x);
                    }
                }
                lemma_count_either(n, next_to(edges, s), next_to(init, s), is_node(b));
                lemma_count_one(n, b);
            },
            None => {
                lemma_count_same(n, next_to(edges, s), next_to(init, s));
            },
        }
    }
}

/// A condition that holds only where another holds is counted no more often.
pub proof fn lemma_count_same(n: nat, r: spec_fn(usize) -> bool, p: spec_fn(usize) -> bool)
    requires
        n <= usize::MAX,
        forall|x: usize| x < n && #[trigger] r(x) ==> p(x),
    ensures
        count_below(n, r) <= count_below(n, p),
    decreases n,
{
    if n > 0 {
        lemma_count_same((n - 1) as nat, r, p);
    }
}

/// One more edge makes at most two more nodes busy.
pub proof fn lemma_busy_after_push(edges: Seq<(usize, usize)>, e: (usize, usize), n: nat, cap: nat)
    requires
        n <= usize::MAX,
    ensures
        count_below(n, busy(edges.push(e), cap)) <= count_below(n, busy(edges, cap)) + 2,
{
    let after = busy(edges.push(e), cap);
    let ends = |x: usize| x == e.0 || x == e.1;
    assert forall|x: usize| x < n && #[trigger] after(x) implies busy(edges, cap)(x) || ends(
        x,
    ) by {
        lemma_degree_after_push(edges, e, x);
    }
    lemma_count_either(n, after, busy(edges, cap), ends);
    lemma_count_either(n, ends, is_node(e.0), is_node(e.1));
    lemma_count_one(n, e.0);
    lemma_count_one(n, e.1);
}

/// On a board where fewer than `n - cap - 1` nodes have more than `cap`
/// neighbours, a node `s` with at most `cap + 1` neighbours can be joined to
/// some node: one that is not `s`, not a neighbour of `s`, and has at most
/// `cap` neighbours.
pub proof fn lemma_room_for_an_edge(edges: Seq<(usize, usize)>, n: nat, s: usize, cap: nat)
    requires
        n <= usize::MAX,
        degree_of(edges, s) <= cap + 1,
        count_below(n, busy(edges, cap)) + cap + 1 < n,
    ensures
        exists|x: usize|
            x < n && x != s && !adjacent(edges, s, x) && #[trigger] degree_of(edges, x) <= cap,
{
    let near = |x: usize| x == s || adjacent(edges, s, x);
    let blocked = |x: usize| x == s || adjacent(edges, s, x) || degree_of(edges, x) > cap;
    lemma_count_adjacent(edges, n, s);
    lemma_count_one(n, s);
    if degree_of(edges, s) <= cap {
        lemma_count_either(n, near, is_node(s), next_to(edges, s));
        lemma_count_either(n, blocked, near, busy(edges, cap));
    } else {
        lemma_count_either(n, blocked, next_to(edges, s), busy(edges, cap));
    }
    lemma_count_gap(n, blocked);
    let x = choose|x: usize| x < n && !#[trigger] blocked(x);
    assert(x < n && x != s && !adjacent(edges, s, x) && degree_of(edges, x) <= cap);
}

} // verus!
