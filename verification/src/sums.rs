//! Finite sums over node numbers, and the double counting that keeps the mass
//! of a belief unchanged when it flows along the edges.

use crate::board::occurrences;
use vstd::prelude::*;

verus! {

/// `f(0) + f(1) + ... + f(n - 1)`.
pub open spec fn sum_to(n: nat, f: spec_fn(int) -> int) -> int
    decreases n,
{
    if n == 0 {
        0
    } else {
        sum_to((n - 1) as nat, f) + f(n - 1)
    }
}

/// The sum of `g` over the entries of `s`, each entry counted as often as it
/// occurs.
pub open spec fn list_sum(s: Seq<usize>, g: spec_fn(int) -> int) -> int
    decreases s.len(),
{
    if s.len() == 0 {
        0
    } else {
        list_sum(s.drop_last(), g) + g(s.last() as int)
    }
}

/// Sums of functions that agree below `n` agree.
pub proof fn lemma_sum_same(n: nat, f: spec_fn(int) -> int, g: spec_fn(int) -> int)
    requires
        forall|i: int| 0 <= i < n ==> #[trigger] f(i) == g(i),
    ensures
        sum_to(n, f) == sum_to(n, g),
    decreases n,
{
    if n > 0 {
        lemma_sum_same((n - 1) as nat, f, g);
    }
}

/// A sum of terms that are not negative is not negative, and no term exceeds
/// it.
pub proof fn lemma_sum_bounds(n: nat, f: spec_fn(int) -> int)
    requires
        forall|i: int| 0 <= i < n ==> #[trigger] f(i) >= 0,
    ensures
        sum_to(n, f) >= 0,
        forall|i: int| 0 <= i < n ==> #[trigger] f(i) <= sum_to(n, f),
    decreases n,
{
    if n > 0 {
        lemma_sum_bounds((n - 1) as nat, f);
    }
}

/// Two different terms of a sum of terms that are not negative do not exceed
/// it together.
pub proof fn lemma_sum_two(n: nat, f: spec_fn(int) -> int, i: int, j: int)
    requires
        forall|k: int| 0 <= k < n ==> #[trigger] f(k) >= 0,
        0 <= i < n,
        0 <= j < n,
        i != j,
    ensures
        f(i) + f(j) <= sum_to(n, f),
    decreases n,
{
    if i == n - 1 || j == n - 1 {
        lemma_sum_bounds((n - 1) as nat, f);
    } else {
        lemma_sum_two((n - 1) as nat, f, i, j);
    }
}

/// A sum of `n` terms that all equal `c` is `n * c`.
pub proof fn lemma_sum_constant(n: nat, c: int, f: spec_fn(int) -> int)
    requires
        forall|i: int| 0 <= i < n ==> #[trigger] f(i) == c,
    ensures
        sum_to(n, f) == n * c,
    decreases n,
{
    if n > 0 {
        lemma_sum_constant((n - 1) as nat, c, f);
        assert((n - 1) * c + c == n * c) by (nonlinear_arith);
    } else {
        assert(0 * c == 0);
    }
}

/// The sum of `f + g` is the sum of `f` plus the sum of `g`.
pub proof fn lemma_sum_add(n: nat, f: spec_fn(int) -> int, g: spec_fn(int) -> int)
    ensures
        sum_to(n, |i: int| f(i) + g(i)) == sum_to(n, f) + sum_to(n, g),
    decreases n,
{
    if n > 0 {
        lemma_sum_add((n - 1) as nat, f, g);
    }
}

/// A common factor can be taken out of a sum.
pub proof fn lemma_sum_scale(n: nat, c: int, f: spec_fn(int) -> int)
    ensures
        sum_to(n, |i: int| c * f(i)) == c * sum_to(n, f),
    decreases n,
{
    if n > 0 {
        lemma_sum_scale((n - 1) as nat, c, f);
        let rest = sum_to((n - 1) as nat, f);
        let last = f(n - 1);
        assert(c * rest + c * last == c * (rest + last)) by (nonlinear_arith);
    } else {
        assert(c * 0 == 0);
    }
}

/// A sum with a single term that is not zero is that term.
pub proof fn lemma_sum_single(n: nat, x: int, v: int)
    ensures
        sum_to(
            n,
            |i: int|
                if i == x {
                    v
                } else {
                    0
                },
        ) == if 0 <= x < n {
            v
        } else {
            0
        },
    decreases n,
{
    if n > 0 {
        lemma_sum_single((n - 1) as nat, x, v);
    }
}

/// The order of two summations can be exchanged.
pub proof fn lemma_sum_swap(n: nat, m: nat, f: spec_fn(int, int) -> int)
    ensures
        sum_to(n, |i: int| sum_to(m, |j: int| f(i, j))) == sum_to(
            m,
            |j: int| sum_to(n, |i: int| f(i, j)),
        ),
    decreases n,
{
    let rows = |i: int| sum_to(m, |j: int| f(i, j));
    let cols = |j: int| sum_to(n, |i: int| f(i, j));
    if n == 0 {
        let zero = |j: int| 0int;
        lemma_sum_same(m, cols, zero);
        lemma_sum_scale(m, 0, zero);
        lemma_sum_same(m, |j: int| 0 * zero(j), zero);
    } else {
        let k = (n - 1) as nat;
        lemma_sum_swap(k, m, f);
        let fewer = |j: int| sum_to(k, |i: int| f(i, j));
        let last = |j: int| f(n - 1, j);
        lemma_sum_add(m, fewer, last);
        lemma_sum_same(m, cols, |j: int| fewer(j) + last(j));
        lemma_sum_same(k, rows, |i: int| sum_to(m, |j: int| f(i, j)));
        assert(rows(n - 1) == sum_to(m, last)) by {
            lemma_sum_same(m, |j: int| f(n - 1, j), last);
        }
    }
}

/// Summing over a list is summing over all nodes, each weighted by how often
/// the list holds it.
pub proof fn lemma_list_sum_by_count(s: Seq<usize>, n: nat, g: spec_fn(int) -> int)
    requires
        n <= usize::MAX,
        forall|k: int| 0 <= k < s.len() ==> s[k] < n,
    ensures
        list_sum(s, g) == sum_to(n, |j: int| occurrences(s, j as usize) * g(j)),
    decreases s.len(),
{
    let counted = |j: int| occurrences(s, j as usize) * g(j);
    if s.len() == 0 {
        let zero = |j: int| 0int;
        assert forall|j: int| 0 <= j < n implies #[trigger] counted(j) == zero(j) by {
            assert(occurrences(s, j as usize) == 0);
        }
        lemma_sum_same(n, counted, zero);
        lemma_sum_single(n, -1, 0);
        lemma_sum_same(
            n,
            zero,
            |i: int|
                if i == -1 {
                    0int
                } else {
                    0int
                },
        );
    } else {
        let init = s.drop_last();
        let x = s.last() as int;
        lemma_list_sum_by_count(init, n, g);
        let before = |j: int| occurrences(init, j as usize) * g(j);
        let extra = |j: int|
            if j == x {
                g(x)
            } else {
                0int
            };
        lemma_sum_add(n, before, extra);
        lemma_sum_single(n, x, g(x));
        assert forall|j: int| 0 <= j < n implies #[trigger] counted(j) == before(j) + extra(j) by {
            let c = occurrences(init, j as usize) as int;
            if j == x {
                assert(s.last() == j as usize);
                assert((c + 1) * g(j) == c * g(j) + g(j)) by (nonlinear_arith);
            } else {
                assert(s.last() != j as usize);
            }
        }
        lemma_sum_same(n, counted, |j: int| before(j) + extra(j));
    }
}

/// The counts of all nodes in a list add up to its length.
pub proof fn lemma_count_total(s: Seq<usize>, n: nat)
    requires
        n <= usize::MAX,
        forall|k: int| 0 <= k < s.len() ==> s[k] < n,
    ensures
        sum_to(n, |j: int| occurrences(s, j as usize) as int) == s.len(),
{
    let one = |j: int| 1int;
    lemma_list_sum_by_count(s, n, one);
    lemma_list_sum_const(s);
    lemma_sum_same(
        n,
        |j: int| occurrences(s, j as usize) * one(j),
        |j: int| occurrences(s, j as usize) as int,
    );
}

/// Summing one over a list gives its length.
pub proof fn lemma_list_sum_const(s: Seq<usize>)
    ensures
        list_sum(s, |j: int| 1int) == s.len(),
    decreases s.len(),
{
    if s.len() > 0 {
        lemma_list_sum_const(s.drop_last());
    }
}

/// A sum over a list of terms that are not negative is not negative, and no
/// term exceeds it.
pub proof fn lemma_list_sum_bounds(s: Seq<usize>, g: spec_fn(int) -> int)
    requires
        forall|k: int| 0 <= k < s.len() ==> g(s[k] as int) >= 0,
    ensures
        list_sum(s, g) >= 0,
        forall|k: int| 0 <= k < s.len() ==> g(s[k] as int) <= list_sum(s, g),
    decreases s.len(),
{
    if s.len() > 0 {
        let init = s.drop_last();
        assert forall|k: int| 0 <= k < init.len() implies g(init[k] as int) >= 0 by {
            assert(init[k] == s[k]);
        }
        lemma_list_sum_bounds(init, g);
        assert(s.last() == s[s.len() - 1]);
        assert forall|k: int| 0 <= k < s.len() implies g(s[k] as int) <= list_sum(s, g) by {
            if k < init.len() {
                assert(init[k] == s[k]);
            }
        }
    }
}

/// Neighbour lists in which `j` is listed under `i` as often as `i` under `j`.
pub open spec fn mutual(adj: Seq<Seq<usize>>) -> bool {
    &&& adj.len() <= usize::MAX
    &&& forall|i: int, k: int|
        0 <= i < adj.len() && 0 <= k < adj[i].len() ==> (#[trigger] adj[i][k]) < adj.len()
    &&& forall|i: int, j: int|
        0 <= i < adj.len() && 0 <= j < adj.len() ==> #[trigger] occurrences(adj[i], j as usize)
            == occurrences(adj[j], i as usize)
}

/// What every node collects from its neighbours adds up to what every node
/// hands out, once to each neighbour.
pub proof fn lemma_flow_conserved(adj: Seq<Seq<usize>>, g: spec_fn(int) -> int)
    requires
        mutual(adj),
    ensures
        sum_to(adj.len(), |i: int| list_sum(adj[i], g)) == sum_to(
            adj.len(),
            |j: int| adj[j].len() * g(j),
        ),
{
    let n = adj.len();
    let f = |i: int, j: int| occurrences(adj[i], j as usize) * g(j);
    let collected = |i: int| list_sum(adj[i], g);
    let rows = |i: int| sum_to(n, |j: int| f(i, j));
    let cols = |j: int| sum_to(n, |i: int| f(i, j));
    let handed = |j: int| adj[j].len() * g(j);
    assert forall|i: int| 0 <= i < n implies #[trigger] collected(i) == rows(i) by {
        lemma_list_sum_by_count(adj[i], n, g);
        lemma_sum_same(
            n,
            |j: int| occurrences(adj[i], j as usize) * g(j),
            |j: int| f(i, j),
        );
    }
    lemma_sum_same(n, collected, rows);
    lemma_sum_swap(n, n, f);
    assert forall|j: int| 0 <= j < n implies #[trigger] cols(j) == handed(j) by {
        let count = |i: int| occurrences(adj[j], i as usize) as int;
        lemma_count_total(adj[j], n);
        lemma_sum_scale(n, g(j), count);
        assert forall|i: int| 0 <= i < n implies #[trigger] f(i, j) == g(j) * count(i) by {
            assert(occurrences(adj[i], j as usize) == occurrences(adj[j], i as usize));
            let c = count(i);
            assert(c * g(j) == g(j) * c) by (nonlinear_arith);
        }
        lemma_sum_same(n, |i: int| f(i, j), |i: int| g(j) * count(i));
        lemma_sum_same(n, count, |i: int| occurrences(adj[j], i as usize) as int);
        let len = adj[j].len() as int;
        assert(g(j) * len == len * g(j)) by (nonlinear_arith);
    }
    lemma_sum_same(n, cols, handed);
}

} // verus!
