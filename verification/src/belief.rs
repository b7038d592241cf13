//! The belief over where the target is: one weight for each node over a
//! common denominator, so that the probability of node `i` is
//! `weight(i) / mass()`, kept exactly.

use crate::board::{
    board_edges, board_nodes, degree_of, habitable, multiplicity, neighbor_list, neighbors_of,
    node_count, occurrences,
};
use crate::error::PursuitError;
use crate::natural::Natural;
use crate::sums::{
    lemma_flow_conserved, lemma_list_sum_bounds, lemma_list_sum_by_count, lemma_sum_add,
    lemma_sum_bounds, lemma_sum_constant, lemma_sum_same, lemma_sum_scale, lemma_sum_single,
    lemma_sum_two,
    list_sum, mutual, sum_to,
};
use crate::walks::{lemma_multiplicity_symmetric, lemma_neighbors_within, lemma_same_entries};
use petgraph::graph::Graph;
use petgraph::Undirected;
use vstd::prelude::*;

verus! {

/// The entries of `w` as a function of the place.
pub open spec fn entry(w: Seq<nat>) -> spec_fn(int) -> int {
    |i: int| w[i] as int
}

/// The sum of the entries of `w`.
pub open spec fn total_of(w: Seq<nat>) -> int {
    sum_to(w.len(), entry(w))
}

/// Weight one at `at`, zero elsewhere.
pub open spec fn certain(n: nat, at: int) -> Seq<nat> {
    Seq::new(
        n,
        |i: int|
            if i == at {
                1nat
            } else {
                0nat
            },
    )
}

/// The product of the entries of `s`.
pub open spec fn product(s: Seq<u64>) -> int
    decreases s.len(),
{
    if s.len() == 0 {
        1
    } else {
        product(s.drop_last()) * (s.last() as int)
    }
}

/// The product of the entries of `s` that differ from `skip`.
pub open spec fn product_except(s: Seq<u64>, skip: u64) -> int
    decreases s.len(),
{
    if s.len() == 0 {
        1
    } else {
        product_except(s.drop_last(), skip) * if s.last() == skip {
            1int
        } else {
            s.last() as int
        }
    }
}

/// The largest of the first `k` entries of `w`; zero where `k` is zero.
pub open spec fn peak(w: Seq<nat>, k: nat) -> nat
    decreases k,
{
    if k == 0 {
        0
    } else {
        let before = peak(w, (k - 1) as nat);
        if w[k - 1] > before {
            w[k - 1]
        } else {
            before
        }
    }
}

/// The places below `k` at which `w` holds `m`, in rising order.
pub open spec fn holders(w: Seq<nat>, k: nat, m: nat) -> Seq<usize>
    decreases k,
{
    if k == 0 {
        Seq::empty()
    } else {
        let before = holders(w, (k - 1) as nat, m);
        if w[k - 1] == m {
            before.push((k - 1) as usize)
        } else {
            before
        }
    }
}

/// The places at which `w` is largest, in rising order.
pub open spec fn likeliest(w: Seq<nat>) -> Seq<usize> {
    holders(w, w.len(), peak(w, w.len()))
}

proof fn lemma_product_positive(s: Seq<u64>, skip: u64)
    requires
        forall|k: int| 0 <= k < s.len() ==> s[k] >= 1,
    ensures
        product(s) >= 1,
        product_except(s, skip) >= 1,
    decreases s.len(),
{
    if s.len() > 0 {
        lemma_product_positive(s.drop_last(), skip);
        let a = product(s.drop_last());
        let b = product_except(s.drop_last(), skip);
        let x = s.last() as int;
        assert(a * x >= 1) by (nonlinear_arith)
            requires
                a >= 1,
                x >= 1,
        ;
        assert(b * x >= 1) by (nonlinear_arith)
            requires
                b >= 1,
                x >= 1,
        ;
    }
}

proof fn lemma_product_absent(s: Seq<u64>, skip: u64)
    requires
        !s.contains(skip),
    ensures
        product_except(s, skip) == product(s),
    decreases s.len(),
{
    if s.len() > 0 {
        let init = s.drop_last();
        assert(s[s.len() - 1] != skip);
        assert forall|k: int| 0 <= k < init.len() implies init[k] != skip by {
            assert(s[k] != skip);
        }
        lemma_product_absent(init, skip);
    }
}

proof fn lemma_product_split(s: Seq<u64>, skip: u64)
    requires
        s.no_duplicates(),
        s.contains(skip),
    ensures
        product_except(s, skip) * (skip as int) == product(s),
    decreases s.len(),
{
    let init = s.drop_last();
    let k = choose|k: int| 0 <= k < s.len() && s[k] == skip;
    if s.last() == skip {
        assert forall|j: int| 0 <= j < init.len() implies init[j] != skip by {
            assert(s[j] != s[s.len() - 1]);
        }
        lemma_product_absent(init, skip);
    } else {
        assert(init[k] == skip);
        lemma_product_split(init, skip);
        let a = product_except(init, skip);
        let x = s.last() as int;
        let y = skip as int;
        assert((a * x) * y == (a * y) * x) by (nonlinear_arith);
    }
}

proof fn lemma_peak(w: Seq<nat>, k: nat)
    requires
        k <= w.len(),
    ensures
        forall|i: int| 0 <= i < k ==> w[i] <= peak(w, k),
        k >= 1 ==> exists|i: int| 0 <= i < k && w[i] == peak(w, k),
    decreases k,
{
    if k > 0 {
        lemma_peak(w, (k - 1) as nat);
        if k == 1 {
            assert(w[0] == peak(w, 1));
        } else {
            let j = choose|i: int| 0 <= i < k - 1 && w[i] == peak(w, (k - 1) as nat);
            if w[k - 1] > peak(w, (k - 1) as nat) {
                assert(w[k - 1] == peak(w, k));
            } else {
                assert(w[j] == peak(w, k));
            }
        }
    }
}

proof fn lemma_holders(w: Seq<nat>, k: nat, m: nat)
    requires
        k <= w.len(),
        k <= usize::MAX,
    ensures
        forall|j: int|
            0 <= j < holders(w, k, m).len() ==> (#[trigger] holders(w, k, m)[j]) < k && w[holders(
                w,
                k,
                m,
            )[j] as int] == m,
        forall|i: int| 0 <= i < k && w[i] == m ==> holders(w, k, m).contains(i as usize),
        forall|i: int, j: int|
            0 <= i < j < holders(w, k, m).len() ==> holders(w, k, m)[i] < holders(w, k, m)[j],
        holders(w, k, m).len() <= k,
    decreases k,
{
    if k > 0 {
        let before = holders(w, (k - 1) as nat, m);
        let now = holders(w, k, m);
        lemma_holders(w, (k - 1) as nat, m);
        assert forall|i: int| 0 <= i < k && w[i] == m implies now.contains(i as usize) by {
            if i < k - 1 {
                let at = choose|at: int| 0 <= at < before.len() && before[at] == i as usize;
                assert(now[at] == i as usize);
            } else {
                assert(now[now.len() - 1] == i as usize);
            }
        }
    }
}

/// What `likeliest` lists: exactly the places that hold the largest weight,
/// each once, in rising order.
pub proof fn lemma_likeliest(w: Seq<nat>)
    requires
        w.len() <= usize::MAX,
    ensures
        forall|j: int|
            0 <= j < likeliest(w).len() ==> (#[trigger] likeliest(w)[j]) < w.len() && w[likeliest(
                w,
            )[j] as int] == peak(w, w.len()),
        forall|i: int| 0 <= i < w.len() ==> w[i] <= peak(w, w.len()),
        forall|i: int|
            0 <= i < w.len() && w[i] == peak(w, w.len()) ==> likeliest(w).contains(i as usize),
        forall|i: int, j: int|
            0 <= i < j < likeliest(w).len() ==> likeliest(w)[i] < likeliest(w)[j],
        w.len() >= 1 ==> likeliest(w).len() >= 1,
{
    lemma_peak(w, w.len());
    lemma_holders(w, w.len(), peak(w, w.len()));
    if w.len() >= 1 {
        let i = choose|i: int| 0 <= i < w.len() && w[i] == peak(w, w.len());
        assert(likeliest(w).contains(i as usize));
    }
}

proof fn lemma_holders_all(w: Seq<nat>, k: nat, m: nat)
    requires
        k <= w.len(),
        forall|i: int| 0 <= i < k ==> w[i] == m,
    ensures
        holders(w, k, m) == Seq::new(k, |i: int| i as usize),
    decreases k,
{
    if k > 0 {
        lemma_holders_all(w, (k - 1) as nat, m);
        assert(holders(w, k, m) =~= Seq::new(k, |i: int| i as usize));
    } else {
        assert(holders(w, k, m) =~= Seq::new(k, |i: int| i as usize));
    }
}

proof fn lemma_holders_one(w: Seq<nat>, k: nat, m: nat, at: int)
    requires
        k <= w.len(),
        w[at] == m,
        forall|i: int| 0 <= i < k && i != at ==> w[i] != m,
    ensures
        holders(w, k, m) == if 0 <= at < k {
            seq![at as usize]
        } else {
            Seq::<usize>::empty()
        },
    decreases k,
{
    if k > 0 {
        lemma_holders_one(w, (k - 1) as nat, m, at);
        if at == k - 1 {
            assert(holders(w, k, m) =~= seq![at as usize]);
        }
    }
}

/// Where all nodes weigh the same, every node is among the likeliest.
pub proof fn lemma_likeliest_uniform(w: Seq<nat>)
    requires
        forall|i: int, j: int| 0 <= i < w.len() && 0 <= j < w.len() ==> w[i] == w[j],
    ensures
        likeliest(w) == Seq::new(w.len(), |i: int| i as usize),
{
    lemma_peak(w, w.len());
    lemma_holders_all(w, w.len(), peak(w, w.len()));
}

/// Where one node holds all the weight, it alone is the likeliest.
pub proof fn lemma_likeliest_certain(w: Seq<nat>, at: int)
    requires
        0 <= at < w.len(),
        w[at] > 0,
        forall|i: int| 0 <= i < w.len() && i != at ==> w[i] == 0,
    ensures
        likeliest(w) == seq![at as usize],
{
    lemma_peak(w, w.len());
    lemma_holders_one(w, w.len(), peak(w, w.len()), at);
}

/// A belief over the nodes of a board.
pub struct BeliefState {
    weights: Vec<Natural>,
    total: Natural,
    neighbors: Vec<Vec<usize>>,
    factors: Vec<u64>,
}

impl BeliefState {
    /// The number of nodes.
    pub closed spec fn size(&self) -> nat {
        self.weights@.len()
    }

    /// The weight of each node.
    pub closed spec fn weights(&self) -> Seq<nat> {
        Seq::new(self.weights@.len(), |i: int| self.weights@[i]@)
    }

    /// The weight of node `i`; its probability is `weight(i) / mass()`.
    pub open spec fn weight(&self, i: int) -> nat {
        self.weights()[i]
    }

    /// The denominator that all weights share.
    pub closed spec fn mass(&self) -> nat {
        self.total@
    }

    /// The neighbours of each node, as taken from the board.
    pub closed spec fn adjacency(&self) -> Seq<Seq<usize>> {
        Seq::new(self.neighbors@.len(), |i: int| self.neighbors@[i]@)
    }

    /// The number of neighbours of node `i`.
    pub open spec fn degree(&self, i: int) -> nat {
        self.adjacency()[i].len()
    }

    /// A common multiple of all degrees: the factor by which one transition
    /// multiplies the denominator.
    pub closed spec fn scale(&self) -> int {
        product(self.factors@)
    }

    /// `scale() / degree(j)`: what one unit of weight at `j` hands to each
    /// neighbour of `j` in one transition.
    pub closed spec fn share(&self, j: int) -> int {
        product_except(self.factors@, self.neighbors@[j].len() as u64)
    }

    /// What node `j` hands to each of its neighbours in one transition.
    pub open spec fn flow(&self) -> spec_fn(int) -> int {
        |j: int| self.weight(j) * self.share(j)
    }

    /// What node `i` collects from its neighbours in one transition.
    pub open spec fn inflow(&self, i: int) -> int {
        list_sum(self.adjacency()[i], self.flow())
    }

    /// The sum of all weights.
    pub open spec fn weight_sum(&self) -> int {
        total_of(self.weights())
    }

    /// The probabilities add up to one.
    pub open spec fn is_normalized(&self) -> bool {
        self.mass() == self.weight_sum()
    }

    /// `next` is a belief over the same nodes with the same neighbours.
    pub open spec fn same_board(&self, next: BeliefState) -> bool {
        &&& next.size() == self.size()
        &&& next.adjacency() == self.adjacency()
        &&& next.scale() == self.scale()
        &&& forall|j: int| next.share(j) == self.share(j)
    }

    /// `next` is what one look at `location` makes of this belief.
    ///
    /// Where the target was seen there, `location` has all the weight. Where
    /// it was not, `location` has lost its weight and the denominator is what
    /// is left, which is more than nothing: the probability of every other
    /// node has been divided by one minus the probability of `location`.
    pub open spec fn observed(&self, next: BeliefState, location: int, present: bool) -> bool {
        &&& next.wf()
        &&& self.same_board(next)
        &&& next.is_normalized()
        &&& if present {
            next.mass() == 1 && next.weights() == certain(self.size(), location)
        } else {
            &&& self.weight_sum() != self.weight(location)
            &&& next.weights() == self.weights().update(location, 0)
            &&& next.mass() == self.weight_sum() - self.weight(location)
        }
    }

    /// `next` is what one step of the target's walk makes of this belief: the
    /// weight of node `i` is the sum, over its neighbours `j`, of
    /// `weight(j) * scale() / degree(j)`, and the denominator has grown by
    /// `scale()`. So the probability of `i` is the sum of
    /// `probability(j) / degree(j)`.
    pub open spec fn transitioned(&self, next: BeliefState) -> bool {
        &&& next.wf()
        &&& self.same_board(next)
        &&& next.mass() == self.mass() * self.scale()
        &&& forall|i: int| 0 <= i < self.size() ==> #[trigger] next.weight(i) == self.inflow(i)
    }

    /// The belief is usable: it has a node, every node has a neighbour, the
    /// neighbour lists are mutual, and some weight and the denominator are
    /// positive.
    pub closed spec fn wf(&self) -> bool {
        &&& self.weights@.len() >= 1
        &&& self.neighbors@.len() == self.weights@.len()
        &&& mutual(self.adjacency())
        &&& forall|i: int|
            0 <= i < self.neighbors@.len() ==> (#[trigger] self.neighbors@[i])@.len() >= 1
        &&& self.total@ > 0
        &&& total_of(self.weights()) > 0
        &&& self.factors@.no_duplicates()
        &&& forall|k: int| 0 <= k < self.factors@.len() ==> #[trigger] self.factors@[k] >= 1
        &&& forall|i: int|
            0 <= i < self.neighbors@.len() ==> self.factors@.contains(
                (#[trigger] self.neighbors@[i]).len() as u64,
            )
    }

    /// What a usable belief offers to its callers.
    pub proof fn lemma_wf(&self)
        requires
            self.wf(),
        ensures
            self.size() >= 1,
            self.size() <= usize::MAX,
            self.weights().len() == self.size(),
            self.adjacency().len() == self.size(),
            mutual(self.adjacency()),
            self.mass() > 0,
            self.weight_sum() > 0,
            self.scale() >= 1,
            forall|j: int|
                0 <= j < self.size() ==> self.degree(j) >= 1 && #[trigger] self.share(j) >= 1
                    && self.share(j) * self.degree(j) == self.scale(),
    {
        lemma_product_positive(self.factors@, 0);
        assert forall|j: int| 0 <= j < self.size() implies self.degree(j) >= 1
            && #[trigger] self.share(j) >= 1 && self.share(j) * self.degree(j)
            == self.scale() by {
            let d = self.neighbors@[j].len() as u64;
            assert(self.neighbors@[j]@.len() >= 1);
            assert(self.adjacency()[j].len() == d);
            lemma_product_positive(self.factors@, d);
            lemma_product_split(self.factors@, d);
        }
    }

    /// The number of nodes.
    pub fn len(&self) -> (n: usize)
        ensures
            n == self.size(),
    {
        self.weights.len()
    }

    /// The weight of node `i`.
    pub fn weight_at(&self, i: usize) -> (w: Natural)
        requires
            i < self.size(),
        ensures
            w@ == self.weight(i as int),
    {
        self.weights[i].clone()
    }

    /// The denominator that all weights share.
    pub fn total_mass(&self) -> (m: Natural)
        ensures
            m@ == self.mass(),
    {
        self.total.clone()
    }

    /// The sum of all weights.
    fn sum_weights(&self) -> (r: Natural)
        ensures
            r@ == self.weight_sum(),
    {
        let n: usize = self.weights.len();
        let mut acc = Natural::zero();
        let mut i: usize = 0;
        while i < n
            invariant
                i <= n,
                n == self.weights@.len(),
                acc@ == sum_to(i as nat, entry(self.weights())),
            decreases n - i,
        {
            acc = acc.plus(&self.weights[i]);
            i += 1;
        }
        acc
    }

    /// Whether the probabilities add up to one.
    pub fn check_validity(&self) -> (r: bool)
        ensures
            r == self.is_normalized(),
    {
        let sum = self.sum_weights();
        sum.equals(&self.total)
    }

    /// The uniform belief over the nodes of `board`: every node weighs one,
    /// over the number of nodes. A board without a node, or with a node that
    /// has no neighbour, is refused.
    pub fn new(board: Graph<u32, i32, Undirected>) -> (r: Result<BeliefState, PursuitError>)
        ensures
            match r {
                Ok(b) => {
                    &&& habitable(board_edges(board), board_nodes(board))
                    &&& b.wf()
                    &&& b.size() == board_nodes(board)
                    &&& b.mass() == b.size()
                    &&& b.is_normalized()
                    &&& forall|i: int| 0 <= i < b.size() ==> b.weight(i) == 1
                    &&& forall|i: int|
                        0 <= i < b.size() ==> (#[trigger] b.adjacency()[i]).to_multiset()
                            == neighbor_list(board_edges(board), i as usize).to_multiset()
                },
                Err(e) => e == PursuitError::InvalidTopology && !habitable(
                    board_edges(board),
                    board_nodes(board),
                ),
            },
    {
        let ghost edges = board_edges(board);
        let n: usize = node_count(&board);
        if n == 0 {
            return Err(PursuitError::InvalidTopology);
        }
        let mut weights: Vec<Natural> = Vec::new();
        let mut neighbors: Vec<Vec<usize>> = Vec::new();
        let mut factors: Vec<u64> = Vec::new();
        let mut i: usize = 0;
        while i < n
            invariant
                i <= n,
                n == board_nodes(board),
                edges == board_edges(board),
                weights@.len() == i,
                neighbors@.len() == i,
                forall|k: int| 0 <= k < i ==> (#[trigger] weights@[k])@ == 1,
                forall|k: int|
                    0 <= k < i ==> (#[trigger] neighbors@[k])@.to_multiset() == neighbor_list(
                        edges,
                        k as usize,
                    ).to_multiset(),
                forall|k: int| 0 <= k < i ==> (#[trigger] neighbors@[k])@.len() >= 1,
                factors@.no_duplicates(),
                forall|k: int| 0 <= k < factors@.len() ==> #[trigger] factors@[k] >= 1,
                forall|k: int|
                    0 <= k < i ==> factors@.contains((#[trigger] neighbors@[k]).len() as u64),
            decreases n - i,
        {
            let around = neighbors_of(&board, i);
            proof {
                lemma_same_entries(around@, neighbor_list(edges, i));
            }
            if around.len() == 0 {
                assert(degree_of(edges, i) == 0);
                return Err(PursuitError::InvalidTopology);
            }
            let d: u64 = around.len() as u64;
            if !holds(&factors, d) {
                let ghost before = factors@;
                factors.push(d);
                proof {
                    assert forall|k: int| 0 <= k < i implies factors@.contains(
                        (#[trigger] neighbors@[k]).len() as u64,
                    ) by {
                        let x = neighbors@[k].len() as u64;
                        let at = choose|at: int| 0 <= at < before.len() && before[at] == x;
                        assert(factors@[at] == x);
                    }
                    assert(factors@[before.len() as int] == d);
                    assert forall|a: int, b: int|
                        0 <= a < factors@.len() && 0 <= b < factors@.len() && a
                            != b implies factors@[a] != factors@[b] by {
                        if a < before.len() {
                            assert(before[a] == factors@[a]);
                        }
                        if b < before.len() {
                            assert(before[b] == factors@[b]);
                        }
                    }
                }
            }
            assert(factors@.contains(d));
            weights.push(Natural::from_u64(1));
            neighbors.push(around);
            i += 1;
        }
        let total = Natural::from_u64(n as u64);
        let belief = BeliefState { weights, total, neighbors, factors };
        proof {
            let adj = belief.adjacency();
            let w = belief.weights();
            assert forall|a: usize| a < n implies #[trigger] degree_of(edges, a) >= 1 by {
                lemma_same_entries(belief.neighbors@[a as int]@, neighbor_list(edges, a));
            }
            assert forall|a: int, k: int| 0 <= a < adj.len() && 0 <= k < adj[a].len() implies (
            #[trigger] adj[a][k]) < adj.len() by {
                lemma_same_entries(adj[a], neighbor_list(edges, a as usize));
                lemma_neighbors_within(edges, n as nat, a as usize);
                let list = neighbor_list(edges, a as usize);
                assert(adj[a].contains(adj[a][k]));
                let at = choose|at: int| 0 <= at < list.len() && list[at] == adj[a][k];
                assert(list[at] < n);
            }
            assert forall|a: int, b: int| 0 <= a < adj.len() && 0 <= b < adj.len() implies (
            #[trigger] occurrences(adj[a], b as usize)) == occurrences(adj[b], a as usize) by {
                lemma_same_entries(adj[a], neighbor_list(edges, a as usize));
                lemma_same_entries(adj[b], neighbor_list(edges, b as usize));
                lemma_multiplicity_symmetric(edges, a as usize, b as usize);
                assert(occurrences(adj[a], b as usize) == multiplicity(
                    edges,
                    a as usize,
                    b as usize,
                ));
            }
            lemma_sum_constant(n as nat, 1, entry(w));
            assert(belief.wf());
        }
        Ok(belief)
    }

    /// Sets the denominator to the sum of the weights, so that the
    /// probabilities add up to one; no weight changes.
    pub fn normalize(&mut self)
        requires
            old(self).wf(),
        ensures
            final(self).wf(),
            old(self).same_board(*final(self)),
            final(self).is_normalized(),
            final(self).weights() == old(self).weights(),
            final(self).mass() == old(self).weight_sum(),
    {
        let sum = self.sum_weights();
        self.total = sum;
    }

    /// Takes in one look at `location`.
    ///
    /// Where the target was seen there, `location` gets all the weight. Where
    /// it was not, `location` loses its weight and the denominator shrinks to
    /// what is left, unless nothing would be left: then the belief stays as it
    /// was and the look is refused.
    pub fn update_with_observation(&mut self, location: usize, target_present: bool) -> (r:
        Result<(), PursuitError>)
        requires
            old(self).wf(),
            location < old(self).size(),
        ensures
            match r {
                Ok(_) => old(self).observed(*final(self), location as int, target_present),
                Err(e) => {
                    &&& e == PursuitError::DegenerateBelief
                    &&& !target_present
                    &&& old(self).weight_sum() == old(self).weight(location as int)
                    &&& *final(self) == *old(self)
                },
            },
    {
        let n: usize = self.weights.len();
        let ghost before = self.weights();
        if target_present {
            let mut fresh: Vec<Natural> = Vec::new();
            let mut i: usize = 0;
            while i < n
                invariant
                    i <= n,
                    location < n,
                    fresh@.len() == i,
                    forall|k: int|
                        0 <= k < i ==> (#[trigger] fresh@[k])@ == if k == location {
                            1nat
                        } else {
                            0nat
                        },
                decreases n - i,
            {
                if i == location {
                    fresh.push(Natural::from_u64(1));
                } else {
                    fresh.push(Natural::zero());
                }
                i += 1;
            }
            self.weights = fresh;
            self.total = Natural::from_u64(1);
            proof {
                let w = self.weights();
                assert(w =~= certain(n as nat, location as int));
                lemma_sum_single(n as nat, location as int, 1);
                lemma_sum_same(
                    n as nat,
                    entry(w),
                    |i: int|
                        if i == location as int {
                            1int
                        } else {
                            0int
                        },
                );
            }
            return Ok(());
        }
        let mut rest = Natural::zero();
        let ghost others = |i: int|
            if i == location as int {
                0int
            } else {
                before[i] as int
            };
        let mut i: usize = 0;
        while i < n
            invariant
                i <= n,
                n == self.weights@.len(),
                before == self.weights(),
                others == |i: int|
                    if i == location as int {
                        0int
                    } else {
                        before[i] as int
                    },
                rest@ == sum_to(i as nat, others),
            decreases n - i,
        {
            if i != location {
                rest = rest.plus(&self.weights[i]);
            }
            i += 1;
        }
        proof {
            let single = |i: int|
                if i == location as int {
                    before[location as int] as int
                } else {
                    0int
                };
            lemma_sum_add(n as nat, others, single);
            lemma_sum_single(n as nat, location as int, before[location as int] as int);
            lemma_sum_same(n as nat, entry(before), |i: int| others(i) + single(i));
        }
        if rest.is_zero() {
            return Err(PursuitError::DegenerateBelief);
        }
        self.weights.set(location, Natural::zero());
        proof {
            let w = self.weights();
            assert(w =~= before.update(location as int, 0));
            lemma_sum_same(n as nat, entry(w), others);
        }
        self.normalize();
        Ok(())
    }

    /// Lets the belief follow one step of the target's walk: every node hands
    /// its weight in equal parts to its neighbours, all at once. No mass is
    /// lost: the sum of the weights grows as the denominator does.
    pub fn update_with_transition(&mut self)
        requires
            old(self).wf(),
        ensures
            old(self).transitioned(*final(self)),
            final(self).weight_sum() == old(self).weight_sum() * old(self).scale(),
            old(self).is_normalized() ==> final(self).is_normalized(),
    {
        proof {
            self.lemma_wf();
        }
        let n: usize = self.weights.len();
        let ghost start = *self;
        let mut scaled: Vec<Natural> = Vec::new();
        let mut j: usize = 0;
        while j < n
            invariant
                j <= n,
                n == self.weights@.len(),
                *self == start,
                self.wf(),
                scaled@.len() == j,
                forall|k: int| 0 <= k < j ==> (#[trigger] scaled@[k])@ == start.flow()(k),
            decreases n - j,
        {
            let d: u64 = self.neighbors[j].len() as u64;
            let mut x = self.weights[j].clone();
            let m: usize = self.factors.len();
            let mut k: usize = 0;
            while k < m
                invariant
                    k <= m,
                    m == self.factors@.len(),
                    *self == start,
                    x@ == start.weight(j as int) * product_except(self.factors@.take(k as int), d),
                decreases m - k,
            {
                let f: u64 = self.factors[k];
                proof {
                    let upto = self.factors@.take(k as int + 1);
                    assert(upto.drop_last() =~= self.factors@.take(k as int));
                    assert(upto.last() == f);
                    let a = start.weight(j as int) as int;
                    let b = product_except(self.factors@.take(k as int), d);
                    assert((a * b) * f == a * (b * f)) by (nonlinear_arith);
                    assert(b * 1 == b);
                }
                if f != d {
                    x = x.times(f);
                }
                k += 1;
            }
            proof {
                assert(self.factors@.take(m as int) =~= self.factors@);
            }
            scaled.push(x);
            j += 1;
        }
        let mut fresh: Vec<Natural> = Vec::new();
        let mut i: usize = 0;
        while i < n
            invariant
                i <= n,
                n == self.weights@.len(),
                *self == start,
                self.wf(),
                scaled@.len() == n,
                forall|k: int| 0 <= k < n ==> (#[trigger] scaled@[k])@ == start.flow()(k),
                fresh@.len() == i,
                forall|k: int| 0 <= k < i ==> (#[trigger] fresh@[k])@ == start.inflow(k),
            decreases n - i,
        {
            let deg: usize = self.neighbors[i].len();
            let ghost row = self.neighbors@[i as int]@;
            let mut acc = Natural::zero();
            let mut k: usize = 0;
            while k < deg
                invariant
                    k <= deg,
                    i < n,
                    n == self.weights@.len(),
                    *self == start,
                    self.wf(),
                    row == self.neighbors@[i as int]@,
                    deg == row.len(),
                    scaled@.len() == n,
                    forall|k: int| 0 <= k < n ==> (#[trigger] scaled@[k])@ == start.flow()(k),
                    acc@ == list_sum(row.take(k as int), start.flow()),
                decreases deg - k,
            {
                let from: usize = self.neighbors[i][k];
                proof {
                    assert(self.adjacency()[i as int][k as int] < self.adjacency().len());
                    let upto = row.take(k as int + 1);
                    assert(upto.drop_last() =~= row.take(k as int));
                    assert(upto.last() == from);
                }
                acc = acc.plus(&scaled[from]);
                k += 1;
            }
            proof {
                assert(row.take(deg as int) =~= row);
                assert(start.adjacency()[i as int] == row);
            }
            fresh.push(acc);
            i += 1;
        }
        let mut total = self.total.clone();
        let m: usize = self.factors.len();
        let mut k: usize = 0;
        while k < m
            invariant
                k <= m,
                m == self.factors@.len(),
                *self == start,
                total@ == start.mass() * product(self.factors@.take(k as int)),
            decreases m - k,
        {
            let f: u64 = self.factors[k];
            proof {
                let upto = self.factors@.take(k as int + 1);
                assert(upto.drop_last() =~= self.factors@.take(k as int));
                assert(upto.last() == f);
                let a = start.mass() as int;
                let b = product(self.factors@.take(k as int));
                assert((a * b) * f == a * (b * f)) by (nonlinear_arith);
            }
            total = total.times(f);
            k += 1;
        }
        proof {
            assert(self.factors@.take(m as int) =~= self.factors@);
        }
        self.weights = fresh;
        self.total = total;
        proof {
            start.lemma_transition_keeps_mass(self.weights());
            let s = start.scale();
            let a = start.mass() as int;
            assert(a * s > 0) by (nonlinear_arith)
                requires
                    a > 0,
                    s >= 1,
            ;
        }
    }

    /// Where every node collects what `inflow` says, the sum of the weights
    /// grows by `scale()`.
    pub proof fn lemma_transition_keeps_mass(&self, next: Seq<nat>)
        requires
            self.wf(),
            next.len() == self.size(),
            forall|i: int| 0 <= i < self.size() ==> #[trigger] next[i] == self.inflow(i),
        ensures
            total_of(next) == self.weight_sum() * self.scale(),
            total_of(next) > 0,
    {
        self.lemma_wf();
        let n = self.size();
        let adj = self.adjacency();
        let g = self.flow();
        let s = self.scale();
        let w = entry(self.weights());
        lemma_flow_conserved(adj, g);
        lemma_sum_same(n, entry(next), |i: int| list_sum(adj[i], g));
        assert forall|j: int| 0 <= j < n implies adj[j].len() * #[trigger] g(j) == s * w(j) by {
            let d = adj[j].len() as int;
            let c = self.share(j);
            let x = self.weight(j) as int;
            assert(c * d == s);
            assert(d * (x * c) == (c * d) * x) by (nonlinear_arith);
        }
        lemma_sum_same(n, |j: int| adj[j].len() * g(j), |j: int| s * w(j));
        lemma_sum_scale(n, s, w);
        let t = self.weight_sum();
        assert(s * t == t * s) by (nonlinear_arith);
        assert(t * s > 0) by (nonlinear_arith)
            requires
                t > 0,
                s >= 1,
        ;
    }

    /// A transition keeps the sum of the probabilities: it multiplies the sum
    /// of the weights and the denominator by the same number.
    pub proof fn lemma_transition_keeps_sum(before: BeliefState, after: BeliefState)
        requires
            before.wf(),
            before.transitioned(after),
        ensures
            after.weight_sum() == before.weight_sum() * before.scale(),
            after.mass() == before.mass() * before.scale(),
            before.is_normalized() ==> after.is_normalized(),
    {
        before.lemma_wf();
        after.lemma_wf();
        let next = after.weights();
        assert forall|i: int| 0 <= i < before.size() implies #[trigger] next[i] == before.inflow(
            i,
        ) by {
            assert(after.weight(i) == before.inflow(i));
        }
        before.lemma_transition_keeps_mass(next);
    }

    /// From certainty, one transition hands to every node `1 / degree(at)` for
    /// each edge that joins it to the certain node `at`, and nothing to a node
    /// that no edge joins to `at`.
    pub proof fn lemma_transition_from_certainty(
        before: BeliefState,
        after: BeliefState,
        at: int,
        i: int,
    )
        requires
            before.wf(),
            0 <= at < before.size(),
            0 <= i < before.size(),
            before.weight(at) == before.mass(),
            forall|j: int| 0 <= j < before.size() && j != at ==> before.weight(j) == 0,
            before.transitioned(after),
        ensures
            after.weight(i) * before.degree(at) == after.mass() * occurrences(
                before.adjacency()[at],
                i as usize,
            ),
    {
        before.lemma_wf();
        let n = before.size();
        let adj = before.adjacency();
        let g = before.flow();
        let count = occurrences(adj[i], at as usize) as int;
        let counted = |j: int| occurrences(adj[i], j as usize) * g(j);
        let single = |j: int|
            if j == at {
                count * g(at)
            } else {
                0int
            };
        assert forall|k: int| 0 <= k < adj[i].len() implies adj[i][k] < n by {
            assert(adj[i][k] < adj.len());
        }
        lemma_list_sum_by_count(adj[i], n, g);
        assert forall|j: int| 0 <= j < n implies #[trigger] counted(j) == single(j) by {
            if j != at {
                let c = occurrences(adj[i], j as usize) as int;
                let s = before.share(j);
                assert(before.weight(j) == 0);
                assert(c * (0 * s) == 0) by (nonlinear_arith);
            }
        }
        lemma_sum_same(n, counted, single);
        lemma_sum_single(n, at, count * g(at));
        assert(occurrences(adj[i], at as usize) == occurrences(adj[at], i as usize));
        let m = before.mass() as int;
        let c = before.share(at);
        let d = before.degree(at) as int;
        let s = before.scale();
        assert(c * d == s);
        assert((count * (m * c)) * d == (m * s) * count) by (nonlinear_arith)
            requires
                c * d == s,
        ;
    }

    /// A node next to one with positive weight collects positive weight.
    pub proof fn lemma_inflow_positive(&self, i: int, j: int)
        requires
            self.wf(),
            0 <= i < self.size(),
            0 <= j < self.size(),
            self.adjacency()[i].contains(j as usize),
            self.weight(j) > 0,
        ensures
            self.inflow(i) > 0,
    {
        self.lemma_wf();
        let row = self.adjacency()[i];
        let g = self.flow();
        assert forall|k: int| 0 <= k < row.len() implies g(row[k] as int) >= 0 by {
            let x = row[k] as int;
            assert(self.adjacency()[i][k] < self.adjacency().len());
            let a = self.weight(x) as int;
            let b = self.share(x);
            assert(a * b >= 0) by (nonlinear_arith)
                requires
                    a >= 0,
                    b >= 1,
            ;
        }
        lemma_list_sum_bounds(row, g);
        let at = choose|at: int| 0 <= at < row.len() && row[at] == j as usize;
        assert(g(row[at] as int) <= list_sum(row, g));
        let a = self.weight(j) as int;
        let b = self.share(j);
        assert(a * b > 0) by (nonlinear_arith)
            requires
                a > 0,
                b >= 1,
        ;
    }

    /// No weight exceeds the sum of the weights, and two nodes together do
    /// not either.
    pub proof fn lemma_weight_bounds(&self, i: int, j: int)
        requires
            self.wf(),
            0 <= i < self.size(),
            0 <= j < self.size(),
        ensures
            self.weight(i) <= self.weight_sum(),
            i != j ==> self.weight(i) + self.weight(j) <= self.weight_sum(),
    {
        let f = entry(self.weights());
        lemma_sum_bounds(self.size(), f);
        assert(f(i) <= sum_to(self.size(), f));
        if i != j {
            lemma_sum_two(self.size(), f, i, j);
        }
    }

    /// The nodes that weigh most, in rising order.
    pub fn get_most_likely(&self) -> (r: Vec<usize>)
        ensures
            r@ == likeliest(self.weights()),
    {
        let n: usize = self.weights.len();
        let ghost w = self.weights();
        let mut best = Natural::zero();
        let mut result: Vec<usize> = Vec::new();
        let mut i: usize = 0;
        while i < n
            invariant
                i <= n,
                n == self.weights@.len(),
                w == self.weights(),
                best@ == peak(w, i as nat),
                result@ == holders(w, i as nat, best@),
            decreases n - i,
        {
            if best.less_than(&self.weights[i]) {
                proof {
                    lemma_peak(w, i as nat);
                    lemma_holders_one(w, i as nat, w[i as int], i as int);
                }
                result = Vec::new();
                result.push(i);
                best = self.weights[i].clone();
            } else if self.weights[i].equals(&best) {
                result.push(i);
            }
            i += 1;
        }
        result
    }
}

/// Whether `v` holds `x`.
fn holds(v: &Vec<u64>, x: u64) -> (r: bool)
    ensures
        r == v@.contains(x),
{
    let mut k: usize = 0;
    while k < v.len()
        invariant
            k <= v.len(),
            forall|j: int| 0 <= j < k ==> v@[j] != x,
        decreases v.len() - k,
    {
        if v[k] == x {
            return true;
        }
        k += 1;
    }
    false
}

} // verus!
