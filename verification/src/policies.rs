//! The eight ways in which the agent hunts the target.
//!
//! Every policy runs tick by tick: the target takes a step, then the agent
//! decides, until the agent stands where the target stands. A run also ends
//! once its count of steps can grow no further.

use crate::belief::{lemma_likeliest, likeliest, BeliefState};
use crate::board::{
    adjacent, board_edges, board_nodes, copy_board, degree_of, distances_from, hop_distance,
    is_distance, multiplicity, neighbor_list, neighbors_of, node_count, occurrences, reachable,
};
use crate::chance::{pick, random_below};
use crate::error::PursuitError;
use crate::game::{degree, sound_board, Game};
use crate::oracle::{closer_among, far, first_nearest, lemma_nearer, lemma_nearer_count};
use crate::walks::{
    lemma_adjacent_symmetric, lemma_closer_neighbor, lemma_distance_step,
    lemma_distance_symmetric, lemma_distance_to_self, lemma_distance_unique, lemma_distance_zero,
    lemma_hop_distance, lemma_neighbors_within, lemma_same_entries,
};
use petgraph::graph::Graph;
use petgraph::Undirected;
use vstd::pervasive::unreached;
use vstd::prelude::*;

verus! {

/// `belief` is a usable belief over the nodes of `board`, with the board's
/// neighbours.
pub open spec fn mirrors(belief: BeliefState, board: Graph<u32, i32, Undirected>) -> bool {
    &&& belief.wf()
    &&& belief.size() == board_nodes(board)
    &&& forall|i: int|
        0 <= i < belief.size() ==> (#[trigger] belief.adjacency()[i]).to_multiset()
            == neighbor_list(board_edges(board), i as usize).to_multiset()
}

/// `belief` holds possible every node to which a target on `at` can step.
pub open spec fn expects_around(
    belief: BeliefState,
    board: Graph<u32, i32, Undirected>,
    at: usize,
) -> bool {
    forall|x: usize| #[trigger]
        adjacent(board_edges(board), at, x) ==> belief.weight(x as int) > 0
}

/// `r` is the choice that prefers many neighbours: `start` where no entry of
/// `choices` has more neighbours than it, and else the first entry that has
/// the most.
pub open spec fn is_preferred(
    edges: Seq<(usize, usize)>,
    choices: Seq<usize>,
    start: usize,
    r: usize,
) -> bool {
    &&& degree_of(edges, start) <= degree_of(edges, r)
    &&& forall|j: int|
        0 <= j < choices.len() ==> degree_of(edges, #[trigger] choices[j]) <= degree_of(edges, r)
    &&& if degree_of(edges, r) == degree_of(edges, start) {
        r == start
    } else {
        exists|k: int|
            0 <= k < choices.len() && #[trigger] choices[k] == r && forall|j: int|
                0 <= j < k ==> degree_of(edges, #[trigger] choices[j]) < degree_of(edges, r)
    }
}

/// The target takes one step on a board that stays as it is.
pub open spec fn target_steps(a: Game, b: Game) -> bool {
    &&& a.wf()
    &&& b.wf()
    &&& b.board == a.board
    &&& adjacent(board_edges(a.board), a.target, b.target)
}

/// `to` is a neighbour of `from` and one step nearer to `goal`.
pub open spec fn one_step_nearer(
    board: Graph<u32, i32, Undirected>,
    from: usize,
    to: usize,
    goal: usize,
) -> bool {
    &&& adjacent(board_edges(board), from, to)
    &&& hop_distance(board_edges(board), goal, to) == Some(
        hop_distance(board_edges(board), goal, from)->0 - 1,
    )
}

/// One tick of an agent that waits: the target steps, the agent stays.
pub open spec fn waits(a: Game, b: Game) -> bool {
    target_steps(a, b) && b.agent == a.agent
}

/// One tick of an agent that sees the target: the target steps, and the agent
/// steps to a neighbour that is nearer to the target, unless the target has
/// walked into it.
pub open spec fn closes_in(a: Game, b: Game) -> bool {
    &&& target_steps(a, b)
    &&& if a.agent == b.target {
        b.agent == a.agent
    } else {
        one_step_nearer(a.board, a.agent, b.agent, b.target)
    }
}

/// A run of ticks in each of which the agent waits.
pub open spec fn waiting_run(trace: Seq<Game>) -> bool {
    &&& trace.len() >= 1
    &&& forall|i: int| 0 <= i < trace.len() - 1 ==> waits(#[trigger] trace[i], trace[i + 1])
}

/// A run of ticks in each of which the agent closes in on the target.
pub open spec fn closing_run(trace: Seq<Game>) -> bool {
    &&& trace.len() >= 1
    &&& forall|i: int| 0 <= i < trace.len() - 1 ==> closes_in(#[trigger] trace[i], trace[i + 1])
}

/// The number of ticks of a run on which the agent changed its node.
pub open spec fn strides(trace: Seq<Game>) -> int
    decreases trace.len(),
{
    if trace.len() <= 1 {
        0
    } else {
        strides(trace.drop_last()) + if trace[trace.len() - 1].agent != trace[trace.len()
            - 2].agent {
            1int
        } else {
            0int
        }
    }
}

/// `belief` is the uniform belief over the nodes of `board`.
pub open spec fn uniform_over(belief: BeliefState, board: Graph<u32, i32, Undirected>) -> bool {
    &&& mirrors(belief, board)
    &&& belief.mass() == belief.size()
    &&& forall|i: int| 0 <= i < belief.size() ==> belief.weight(i) == 1
}

/// `node` is one of the nodes that `belief` holds likeliest; where many
/// neighbours are preferred, it is the preferred one for some likeliest node
/// to start from.
pub open spec fn aims_at(
    belief: BeliefState,
    board: Graph<u32, i32, Undirected>,
    node: usize,
    by_degree: bool,
) -> bool {
    &&& likeliest(belief.weights()).contains(node)
    &&& by_degree ==> exists|start: usize|
        likeliest(belief.weights()).contains(start) && #[trigger] is_preferred(
            board_edges(board),
            likeliest(belief.weights()),
            start,
            node,
        )
}

/// `after` is `before` with a look at `place` taken in and one step of the
/// target followed.
pub open spec fn looked(before: BeliefState, after: BeliefState, place: usize, seen: bool) -> bool {
    exists|mid: BeliefState| #[trigger]
        before.observed(mid, place as int, seen) && mid.transitioned(after)
}

/// One tick of an agent that jumps: the target steps, the agent jumps to a
/// node it aims at and looks there.
pub open spec fn jumps(
    a: Game,
    p: BeliefState,
    b: Game,
    q: BeliefState,
    by_degree: bool,
) -> bool {
    &&& target_steps(a, b)
    &&& aims_at(p, a.board, b.agent, by_degree)
    &&& looked(p, q, b.agent, b.agent == b.target)
}

/// The agent's part of a tick on which it heads for `likely`: where it stands
/// there already, nothing changes; else it steps one step nearer and looks at
/// `likely`.
pub open spec fn heads_for(
    a: Game,
    p: BeliefState,
    b: Game,
    q: BeliefState,
    likely: usize,
) -> bool {
    if a.agent == likely {
        b.agent == a.agent && q == p
    } else {
        one_step_nearer(a.board, a.agent, b.agent, likely) && looked(
            p,
            q,
            likely,
            likely == b.target,
        )
    }
}

/// One tick of an agent that walks: the target steps, and the agent heads for
/// a node it aims at.
pub open spec fn walks_on(
    a: Game,
    p: BeliefState,
    b: Game,
    q: BeliefState,
    by_degree: bool,
) -> bool {
    &&& target_steps(a, b)
    &&& exists|likely: usize| #[trigger]
        aims_at(p, a.board, likely, by_degree) && heads_for(a, p, b, q, likely)
}

/// A run of ticks in each of which the agent jumps, begun with the uniform
/// belief.
pub open spec fn jumping_run(games: Seq<Game>, beliefs: Seq<BeliefState>, by_degree: bool) -> bool {
    &&& games.len() >= 1
    &&& beliefs.len() == games.len()
    &&& uniform_over(beliefs[0], games[0].board)
    &&& forall|i: int|
        0 <= i < games.len() - 1 ==> jumps(
            #[trigger] games[i],
            beliefs[i],
            games[i + 1],
            beliefs[i + 1],
            by_degree,
        )
}

/// A run of ticks in each of which the agent walks, begun with the uniform
/// belief.
pub open spec fn walking_run(games: Seq<Game>, beliefs: Seq<BeliefState>, by_degree: bool) -> bool {
    &&& games.len() >= 1
    &&& beliefs.len() == games.len()
    &&& uniform_over(beliefs[0], games[0].board)
    &&& forall|i: int|
        0 <= i < games.len() - 1 ==> walks_on(
            #[trigger] games[i],
            beliefs[i],
            games[i + 1],
            beliefs[i + 1],
            by_degree,
        )
}

/// No game of the run but the last is a capture: the run ends with the first.
pub open spec fn no_early_capture(trace: Seq<Game>) -> bool {
    forall|i: int| 0 <= i < trace.len() - 1 ==> !(#[trigger] trace[i]).captured()
}

/// No game of the run is a capture.
pub open spec fn never_captured(trace: Seq<Game>) -> bool {
    forall|i: int| 0 <= i < trace.len() ==> !(#[trigger] trace[i]).captured()
}

/// One tick of an agent that walks and makes no headway: the target steps,
/// the agent stands on a node it aims at and stays, and so does the belief.
pub open spec fn stalls(a: Game, p: BeliefState, b: Game, q: BeliefState, by_degree: bool) -> bool {
    &&& target_steps(a, b)
    &&& aims_at(p, a.board, a.agent, by_degree)
    &&& b.agent == a.agent
    &&& q == p
}

/// Tick `i` of a run stalled.
pub open spec fn stalled_at(
    games: Seq<Game>,
    beliefs: Seq<BeliefState>,
    i: int,
    by_degree: bool,
) -> bool {
    stalls(games[i], beliefs[i], games[i + 1], beliefs[i + 1], by_degree)
}

/// The run has at least `k` ticks, and its last `k` ticks all stalled.
pub open spec fn ends_stalled(
    games: Seq<Game>,
    beliefs: Seq<BeliefState>,
    k: int,
    by_degree: bool,
) -> bool {
    &&& 0 <= k <= games.len() - 1
    &&& forall|i: int|
        games.len() - 1 - k <= i < games.len() - 1 ==> #[trigger] stalled_at(
            games,
            beliefs,
            i,
            by_degree,
        )
}

/// A look at `place` cannot be taken in: the target is not there, and `place`
/// is the only node that the belief holds possible.
pub open spec fn rules_out_all(belief: BeliefState, place: usize, target: usize) -> bool {
    place != target && belief.weight_sum() == belief.weight(place as int)
}

/// The tick on which an agent that walks gives up: the target steps, the
/// agent steps nearer to a node it aims at, and the look at that node cannot
/// be taken in.
pub open spec fn look_refused(a: Game, p: BeliefState, b: Game, by_degree: bool) -> bool {
    &&& target_steps(a, b)
    &&& exists|likely: usize| #[trigger]
        aims_at(p, a.board, likely, by_degree) && a.agent != likely && one_step_nearer(
            a.board,
            a.agent,
            b.agent,
            likely,
        ) && rules_out_all(p, likely, b.target)
}

/// A run of an agent that closes in, from `start` to `end`, ended by the
/// first capture or by a count that can grow no further.
pub open spec fn closed_in(start: Game, end: Game, count: int) -> bool {
    &&& 0 <= count
    &&& end.captured() || count == i32::MAX
    &&& exists|trace: Seq<Game>| #[trigger]
        closing_run(trace) && no_early_capture(trace) && trace.first() == start && trace.last()
            == end && count == strides(trace)
}

/// A run of an agent that jumps, from `start` to `end`, ended by the first
/// capture or by a count that can grow no further.
pub open spec fn jumped(start: Game, end: Game, count: int, by_degree: bool) -> bool {
    &&& 0 <= count
    &&& end.captured() || count == i32::MAX
    &&& exists|games: Seq<Game>, beliefs: Seq<BeliefState>| #[trigger]
        jumping_run(games, beliefs, by_degree) && no_early_capture(games) && games.first()
            == start && games.last() == end && count == games.len() - 1
}

/// A run of an agent that walks, from `start` to `end`, ended by the first
/// capture or by a count that can grow no further.
pub open spec fn walked(start: Game, end: Game, count: int, by_degree: bool) -> bool {
    &&& 0 <= count
    &&& end.captured() || count == i32::MAX
    &&& exists|games: Seq<Game>, beliefs: Seq<BeliefState>| #[trigger]
        walking_run(games, beliefs, by_degree) && no_early_capture(games) && games.first()
            == start && games.last() == end && count == strides(games)
}

/// A run of an agent that walks, from `start`, given up with `error` and the
/// game at `end`. No game of the run is a capture. `EmptyChoiceSet` ends a
/// run whose last `u64::MAX` ticks all stalled; `DegenerateBelief` comes on
/// the tick after the run, on which the look was refused.
pub open spec fn gave_up(start: Game, end: Game, error: PursuitError, by_degree: bool) -> bool {
    exists|games: Seq<Game>, beliefs: Seq<BeliefState>| #[trigger]
        walking_run(games, beliefs, by_degree) && never_captured(games) && games.first() == start
            && match error {
            PursuitError::EmptyChoiceSet => games.last() == end && ends_stalled(
                games,
                beliefs,
                u64::MAX as int,
                by_degree,
            ),
            PursuitError::DegenerateBelief => look_refused(
                games.last(),
                beliefs.last(),
                end,
                by_degree,
            ),
            _ => false,
        }
}

/// The number of steps of a shortest walk from the agent to the target.
pub open spec fn gap(g: Game) -> int {
    hop_distance(board_edges(g.board), g.agent, g.target)->0
}

/// On a board on which the game can be played, every node is some number of
/// steps away from every other, and neighbours differ in it by at most one.
proof fn lemma_distance_moves(board: Graph<u32, i32, Undirected>, s: usize, a: usize, b: usize)
    requires
        sound_board(board),
        s < board_nodes(board),
        a < board_nodes(board),
        b < board_nodes(board),
        adjacent(board_edges(board), a, b),
    ensures
        hop_distance(board_edges(board), s, a) is Some,
        hop_distance(board_edges(board), s, b) is Some,
        hop_distance(board_edges(board), s, a) == hop_distance(board_edges(board), a, s),
        hop_distance(board_edges(board), s, b) == hop_distance(board_edges(board), b, s),
        0 <= hop_distance(board_edges(board), s, a)->0 <= hop_distance(board_edges(board), s, b)->0
            + 1,
        0 <= hop_distance(board_edges(board), s, b)->0 <= hop_distance(board_edges(board), s, a)->0
            + 1,
{
    let edges = board_edges(board);
    assert(reachable(edges, s, a));
    assert(reachable(edges, s, b));
    lemma_hop_distance(edges, s, a);
    lemma_hop_distance(edges, s, b);
    lemma_distance_symmetric(edges, s, a);
    lemma_distance_symmetric(edges, s, b);
    lemma_distance_step(
        edges,
        s,
        a,
        b,
        hop_distance(edges, s, a)->0,
        hop_distance(edges, s, b)->0,
    );
}

/// While the agent waits, a tick changes its distance from the target by at
/// most one: a run of waiting takes at least as many ticks as it closes
/// steps of the distance.
pub proof fn lemma_waiting_takes_the_distance(trace: Seq<Game>)
    requires
        waiting_run(trace),
    ensures
        gap(trace.first()) <= trace.len() - 1 + gap(trace.last()),
    decreases trace.len(),
{
    if trace.len() > 1 {
        let init = trace.drop_last();
        let a = init.last();
        let b = trace.last();
        assert forall|i: int| 0 <= i < init.len() - 1 implies waits(
            #[trigger] init[i],
            init[i + 1],
        ) by {
            assert(waits(trace[i], trace[i + 1]));
        }
        lemma_waiting_takes_the_distance(init);
        assert(waits(trace[trace.len() - 2], trace[trace.len() - 2 + 1]));
        lemma_distance_moves(a.board, a.agent, a.target, b.target);
    }
}

/// While the agent closes in, a tick closes at most two steps of its distance
/// from the target, and the tick on which the target walks into the agent
/// closes one: a run that ends with the first capture counts at least half as
/// many steps of the agent as the distance it began with.
pub proof fn lemma_closing_takes_half_the_distance(trace: Seq<Game>)
    requires
        closing_run(trace),
        no_early_capture(trace),
        trace.first().wf(),
    ensures
        0 <= strides(trace),
        gap(trace.first()) <= 2 * strides(trace) + gap(trace.last()) + if trace.last().captured() {
            1int
        } else {
            0int
        },
    decreases trace.len(),
{
    if trace.len() > 1 {
        let init = trace.drop_last();
        let a = init.last();
        let b = trace.last();
        assert forall|i: int| 0 <= i < init.len() - 1 implies closes_in(
            #[trigger] init[i],
            init[i + 1],
        ) && !init[i].captured() by {
            assert(closes_in(trace[i], trace[i + 1]));
        }
        lemma_closing_takes_half_the_distance(init);
        assert(closes_in(trace[trace.len() - 2], trace[trace.len() - 2 + 1]));
        assert(!trace[trace.len() - 2].captured());
        lemma_distance_moves(a.board, a.agent, a.target, b.target);
        if a.agent != b.target {
            lemma_neighbors_within(board_edges(a.board), board_nodes(a.board), a.agent);
            lemma_distance_moves(a.board, b.target, a.agent, b.agent);
        } else {
            lemma_distance_to_self(board_edges(a.board), a.agent);
        }
    } else {
        let g = trace.first();
        assert(reachable(board_edges(g.board), g.agent, g.target));
        lemma_hop_distance(board_edges(g.board), g.agent, g.target);
    }
}

/// A walking run that has seen no capture goes on by one more tick.
proof fn lemma_walk_goes_on(
    games: Seq<Game>,
    beliefs: Seq<BeliefState>,
    next: Game,
    q: BeliefState,
    likely: usize,
    by_degree: bool,
)
    requires
        walking_run(games, beliefs, by_degree),
        never_captured(games),
        target_steps(games.last(), next),
        aims_at(beliefs.last(), games.last().board, likely, by_degree),
        heads_for(games.last(), beliefs.last(), next, q, likely),
    ensures
        walking_run(games.push(next), beliefs.push(q), by_degree),
        no_early_capture(games.push(next)),
        strides(games.push(next)) == strides(games) + if next.agent != games.last().agent {
            1int
        } else {
            0int
        },
{
    let longer = games.push(next);
    let held = beliefs.push(q);
    assert(longer.drop_last() =~= games);
    assert forall|i: int| 0 <= i < longer.len() - 1 implies walks_on(
        #[trigger] longer[i],
        held[i],
        longer[i + 1],
        held[i + 1],
        by_degree,
    ) && !longer[i].captured() by {
        assert(!games[i].captured());
        if i < games.len() - 1 {
            assert(walks_on(games[i], beliefs[i], games[i + 1], beliefs[i + 1], by_degree));
        }
    }
}

/// The last `k` ticks of a run stalled, and so does one more: then the last
/// `k + 1` ticks stalled.
proof fn lemma_stall_goes_on(
    games: Seq<Game>,
    beliefs: Seq<BeliefState>,
    next: Game,
    q: BeliefState,
    by_degree: bool,
    k: int,
)
    requires
        games.len() >= 1,
        beliefs.len() == games.len(),
        ends_stalled(games, beliefs, k, by_degree),
        stalls(games.last(), beliefs.last(), next, q, by_degree),
    ensures
        ends_stalled(games.push(next), beliefs.push(q), k + 1, by_degree),
{
    let longer = games.push(next);
    let held = beliefs.push(q);
    assert forall|i: int| longer.len() - 1 - (k + 1) <= i < longer.len() - 1 implies stalled_at(
        longer,
        held,
        i,
        by_degree,
    ) by {
        if i < games.len() - 1 {
            assert(stalled_at(games, beliefs, i, by_degree));
        }
    }
}

impl Game {
    /// The neighbours of the agent that are nearer to `goal` than the agent,
    /// and the distances from `goal` by which they were found.
    fn approach(&self, goal: usize) -> (r: (Vec<usize>, Vec<Option<i32>>))
        requires
            self.wf(),
            goal < board_nodes(self.board),
        ensures
            r.1@.len() == board_nodes(self.board),
            forall|x: usize|
                x < r.1@.len() ==> (#[trigger] r.1@[x as int]) is Some && hop_distance(
                    board_edges(self.board),
                    goal,
                    x,
                ) == Some(far(r.1@, x as int)),
            forall|k: int|
                0 <= k < r.0@.len() ==> (#[trigger] r.0@[k]) < board_nodes(self.board) && adjacent(
                    board_edges(self.board),
                    self.agent,
                    r.0@[k],
                ) && far(r.1@, r.0@[k] as int) == far(r.1@, self.agent as int) - 1,
            forall|x: usize|
                x < board_nodes(self.board) ==> #[trigger] occurrences(r.0@, x) == if far(
                    r.1@,
                    x as int,
                ) < far(r.1@, self.agent as int) {
                    multiplicity(board_edges(self.board), self.agent, x)
                } else {
                    0
                },
            r.0@.len() == 0 <==> self.agent == goal,
    {
        let ghost edges = board_edges(self.board);
        let ghost n = board_nodes(self.board);
        let table = distances_from(&self.board, goal);
        let around = neighbors_of(&self.board, self.agent);
        proof {
            lemma_same_entries(around@, neighbor_list(edges, self.agent));
            lemma_neighbors_within(edges, n, self.agent);
            assert forall|k: int| 0 <= k < around@.len() implies around@[k] < table@.len() by {
                let list = neighbor_list(edges, self.agent);
                assert(around@.contains(around@[k]));
                let at = choose|at: int| 0 <= at < list.len() && list[at] == around@[k];
                assert(list[at] < n);
            }
            assert forall|x: usize| x < table@.len() implies (#[trigger] table@[x as int])
                is Some && hop_distance(edges, goal, x) == Some(far(table@, x as int)) by {
                assert(reachable(edges, goal, x));
                lemma_hop_distance(edges, goal, x);
            }
        }
        let candidates = closer_among(&around, &table, self.agent);
        proof {
            let here = far(table@, self.agent as int);
            lemma_nearer(around@, table@, self.agent as int);
            lemma_hop_distance(edges, goal, self.agent);
            assert(table@[self.agent as int] is Some);
            assert(is_distance(edges, goal, self.agent, here));
            assert forall|k: int| 0 <= k < candidates@.len() implies (#[trigger] candidates@[k])
                < n && adjacent(edges, self.agent, candidates@[k]) && far(
                table@,
                candidates@[k] as int,
            ) == here - 1 by {
                let x = candidates@[k];
                assert(around@.contains(x));
                let at = choose|at: int| 0 <= at < around@.len() && around@[at] == x;
                assert(around@[at] < table@.len());
                assert(table@[x as int] is Some);
                lemma_hop_distance(edges, goal, x);
                assert(is_distance(edges, goal, x, far(table@, x as int)));
                lemma_distance_step(edges, goal, self.agent, x, here, far(table@, x as int));
            }
            assert forall|x: usize| x < n implies #[trigger] occurrences(candidates@, x) == if far(
                table@,
                x as int,
            ) < here {
                multiplicity(edges, self.agent, x)
            } else {
                0
            } by {
                lemma_nearer_count(around@, table@, self.agent as int, x);
                assert(occurrences(around@, x) == occurrences(neighbor_list(edges, self.agent), x));
            }
            lemma_distance_zero(edges, goal, self.agent);
            if self.agent != goal {
                assert(here >= 1);
                lemma_closer_neighbor(edges, goal, self.agent, here);
                let p = choose|p: usize| #[trigger]
                    adjacent(edges, self.agent, p) && is_distance(edges, goal, p, here - 1);
                let list = neighbor_list(edges, self.agent);
                let at = choose|at: int| 0 <= at < list.len() && list[at] == p;
                assert(list[at] < n);
                assert(table@[p as int] is Some);
                lemma_hop_distance(edges, goal, p);
                lemma_distance_unique(edges, goal, p, here - 1, far(table@, p as int));
                assert(around@.contains(p));
                let ap = choose|ap: int| 0 <= ap < around@.len() && around@[ap] == p;
                assert(far(table@, around@[ap] as int) < here);
                assert(candidates@.contains(p));
            } else {
                if candidates@.len() > 0 {
                    assert(far(table@, candidates@[0] as int) == here - 1);
                    lemma_hop_distance(edges, goal, candidates@[0]);
                    assert(table@[candidates@[0] as int] is Some);
                }
            }
        }
        (candidates, table)
    }

    /// The neighbours of the agent that are nearer to `goal` than the agent,
    /// each listed once for every edge that joins it to the agent. Each is
    /// exactly one step nearer, and there is one unless the agent stands on
    /// `goal`.
    pub fn closer_neighbors(&self, goal: usize) -> (r: Vec<usize>)
        requires
            self.wf(),
            goal < board_nodes(self.board),
        ensures
            forall|k: int|
                0 <= k < r@.len() ==> (#[trigger] r@[k]) < board_nodes(self.board) && adjacent(
                    board_edges(self.board),
                    self.agent,
                    r@[k],
                ) && hop_distance(board_edges(self.board), goal, r@[k]) == Some(
                    hop_distance(board_edges(self.board), goal, self.agent)->0 - 1,
                ),
            forall|x: usize|
                x < board_nodes(self.board) ==> #[trigger] occurrences(r@, x) == if hop_distance(
                    board_edges(self.board),
                    goal,
                    x,
                )->0 < hop_distance(board_edges(self.board), goal, self.agent)->0 {
                    multiplicity(board_edges(self.board), self.agent, x)
                } else {
                    0
                },
            r@.len() == 0 <==> self.agent == goal,
    {
        let found = self.approach(goal);
        proof {
            assert(found.1@[self.agent as int] is Some);
        }
        found.0
    }

    /// One step towards `goal`: the first, as the board lists the agent's
    /// neighbours, of those nearest to `goal`; it is one step nearer than the
    /// agent. Refused where the agent stands on `goal`.
    pub fn greedy_step(&self, goal: usize) -> (r: Result<usize, PursuitError>)
        requires
            self.wf(),
            goal < board_nodes(self.board),
        ensures
            match r {
                Ok(x) => self.agent != goal && x < board_nodes(self.board) && adjacent(
                    board_edges(self.board),
                    self.agent,
                    x,
                ) && hop_distance(board_edges(self.board), goal, x) == Some(
                    hop_distance(board_edges(self.board), goal, self.agent)->0 - 1,
                ),
                Err(e) => e == PursuitError::EmptyChoiceSet && self.agent == goal,
            },
    {
        let found = self.approach(goal);
        if found.0.len() == 0 {
            return Err(PursuitError::EmptyChoiceSet);
        }
        proof {
            assert(found.1@[self.agent as int] is Some);
        }
        match first_nearest(&found.0, &found.1) {
            Ok(next) => Ok(next),
            Err(_) => unreached(),
        }
    }

    /// Among `start` and `choices`, the choice that prefers many neighbours.
    pub fn prefer_connected(&self, choices: &Vec<usize>, start: usize) -> (r: usize)
        requires
            self.wf(),
            start < board_nodes(self.board),
            forall|k: int| 0 <= k < choices@.len() ==> choices@[k] < board_nodes(self.board),
        ensures
            is_preferred(board_edges(self.board), choices@, start, r),
            r == start || choices@.contains(r),
    {
        let ghost edges = board_edges(self.board);
        let mut choice: usize = start;
        let mut most: usize = degree(&self.board, start);
        let mut k: usize = 0;
        while k < choices.len()
            invariant
                k <= choices@.len(),
                edges == board_edges(self.board),
                choice < board_nodes(self.board),
                forall|k: int| 0 <= k < choices@.len() ==> choices@[k] < board_nodes(self.board),
                most == degree_of(edges, choice),
                is_preferred(edges, choices@.take(k as int), start, choice),
                choice == start || choices@.contains(choice),
            decreases choices@.len() - k,
        {
            let ghost before = choices@.take(k as int);
            let ghost after = choices@.take(k as int + 1);
            let other: usize = choices[k];
            let d: usize = degree(&self.board, other);
            proof {
                assert forall|j: int| 0 <= j < before.len() implies after[j] == before[j] by {}
                assert(after[k as int] == other);
                if d > most {
                    assert forall|j: int| 0 <= j < k implies degree_of(edges, #[trigger] after[j])
                        < degree_of(edges, other) by {
                        assert(degree_of(edges, before[j]) <= degree_of(edges, choice));
                    }
                    assert forall|j: int| 0 <= j < after.len() implies degree_of(
                        edges,
                        #[trigger] after[j],
                    ) <= degree_of(edges, other) by {
                        if j < k {
                            assert(degree_of(edges, before[j]) <= degree_of(edges, choice));
                        }
                    }
                    assert(after[k as int] == other);
                    assert(is_preferred(edges, after, start, other));
                } else {
                    assert forall|j: int| 0 <= j < after.len() implies degree_of(
                        edges,
                        #[trigger] after[j],
                    ) <= degree_of(edges, choice) by {
                        if j < k {
                            assert(degree_of(edges, before[j]) <= degree_of(edges, choice));
                        }
                    }
                    if degree_of(edges, choice) != degree_of(edges, start) {
                        let at = choose|at: int|
                            0 <= at < before.len() && #[trigger] before[at] == choice
                                && forall|j: int|
                                0 <= j < at ==> degree_of(edges, #[trigger] before[j]) < degree_of(
                                    edges,
                                    choice,
                                );
                        assert(after[at] == choice);
                        assert forall|j: int| 0 <= j < at implies degree_of(
                            edges,
                            #[trigger] after[j],
                        ) < degree_of(edges, choice) by {
                            assert(degree_of(edges, before[j]) < degree_of(edges, choice));
                        }
                    }
                    assert(is_preferred(edges, after, start, choice));
                }
            }
            if d > most {
                choice = other;
                most = d;
            }
            k += 1;
        }
        proof {
            assert(choices@.take(choices@.len() as int) =~= choices@);
        }
        choice
    }

    /// One step towards `goal`: the greedy one, or one drawn at random among
    /// the neighbours that are nearer to `goal`. Refused where the agent
    /// stands on `goal`.
    fn step_towards(&self, goal: usize, greedy: bool) -> (r: Result<usize, PursuitError>)
        requires
            self.wf(),
            goal < board_nodes(self.board),
        ensures
            match r {
                Ok(x) => self.agent != goal && x < board_nodes(self.board) && one_step_nearer(
                    self.board,
                    self.agent,
                    x,
                    goal,
                ),
                Err(e) => e == PursuitError::EmptyChoiceSet && self.agent == goal,
            },
    {
        if greedy {
            self.greedy_step(goal)
        } else {
            let candidates = self.closer_neighbors(goal);
            let drawn = pick(&candidates);
            proof {
                if let Ok(next) = drawn {
                    let at = choose|at: int| 0 <= at < candidates@.len() && candidates@[at] == next;
                    assert(candidates@[at] < board_nodes(self.board));
                }
            }
            drawn
        }
    }

    /// Policy 0: the agent waits where it stands until the target walks into
    /// it. The count is the number of steps the target took, and the run ends
    /// with the first capture: the count is no less than the distance that
    /// the target had to walk.
    pub fn agent_0(&mut self) -> (count: i32)
        requires
            old(self).wf(),
        ensures
            final(self).wf(),
            final(self).board == old(self).board,
            final(self).agent == old(self).agent,
            old(self).captured() ==> count == 0 && *final(self) == *old(self),
            0 <= count,
            final(self).captured() || count == i32::MAX,
            gap(*old(self)) <= count + gap(*final(self)),
            exists|trace: Seq<Game>| #[trigger]
                waiting_run(trace) && trace.first() == *old(self) && trace.last() == *final(self)
                    && count == trace.len() - 1 && forall|i: int|
                    0 <= i < trace.len() - 1 ==> !(#[trigger] trace[i]).captured(),
    {
        let ghost start = *self;
        let ghost mut trace: Seq<Game> = seq![*self];
        let mut count: i32 = 0;
        while self.target != self.agent && count < i32::MAX
            invariant
                self.wf(),
                self.board == start.board,
                self.agent == start.agent,
                waiting_run(trace),
                no_early_capture(trace),
                trace.first() == start,
                trace.last() == *self,
                count == trace.len() - 1,
            decreases i32::MAX - count,
        {
            let ghost before = trace;
            self.move_target();
            count = count + 1;
            proof {
                trace = before.push(*self);
                assert forall|i: int| 0 <= i < trace.len() - 1 implies waits(
                    #[trigger] trace[i],
                    trace[i + 1],
                ) && !trace[i].captured() by {
                    if i < before.len() - 1 {
                        assert(waits(before[i], before[i + 1]));
                    }
                }
            }
        }
        proof {
            lemma_waiting_takes_the_distance(trace);
        }
        count
    }

    /// The run of policies 1 and 2: on every tick the target steps, and the
    /// agent steps to a neighbour that is nearer to it, the greedy one or one
    /// drawn at random.
    fn close_in(&mut self, greedy: bool) -> (count: i32)
        requires
            old(self).wf(),
        ensures
            final(self).wf(),
            final(self).board == old(self).board,
            old(self).captured() ==> count == 0 && *final(self) == *old(self),
            final(self).captured() ==> gap(*old(self)) <= 2 * count + 1,
            closed_in(*old(self), *final(self), count as int),
    {
        let ghost start = *self;
        let ghost mut trace: Seq<Game> = seq![*self];
        let mut count: i32 = 0;
        while self.target_distance() != 0 && count < i32::MAX
            invariant
                self.wf(),
                self.board == start.board,
                closing_run(trace),
                no_early_capture(trace),
                trace.first() == start,
                trace.last() == *self,
                count == strides(trace),
                0 <= count,
            decreases
                    i32::MAX - count,
                    if self.captured() {
                        0int
                    } else {
                        1int
                    },
        {
            let ghost before = trace;
            self.move_target();
            match self.step_towards(self.target, greedy) {
                Ok(next) => {
                    self.agent = next;
                    count = count + 1;
                },
                Err(_) => {},
            }
            proof {
                trace = before.push(*self);
                assert(trace.drop_last() =~= before);
                assert forall|i: int| 0 <= i < trace.len() - 1 implies closes_in(
                    #[trigger] trace[i],
                    trace[i + 1],
                ) && !trace[i].captured() by {
                    if i < before.len() - 1 {
                        assert(closes_in(before[i], before[i + 1]));
                    }
                }
            }
        }
        proof {
            lemma_closing_takes_half_the_distance(trace);
            lemma_distance_to_self(board_edges(self.board), self.agent);
        }
        count
    }

    /// Policy 1: the agent sees the target and steps to a neighbour that is
    /// nearer to it, drawn at random. A tick on which the target walks into
    /// the agent counts no step. The run ends with the first capture, and a
    /// step of the agent closes at most two steps of the distance.
    pub fn agent_1(&mut self) -> (count: i32)
        requires
            old(self).wf(),
        ensures
            final(self).wf(),
            final(self).board == old(self).board,
            old(self).captured() ==> count == 0 && *final(self) == *old(self),
            0 <= count,
            final(self).captured() || count == i32::MAX,
            final(self).captured() ==> gap(*old(self)) <= 2 * count + 1,
            exists|trace: Seq<Game>| #[trigger]
                closing_run(trace) && trace.first() == *old(self) && trace.last() == *final(self)
                    && count == strides(trace) && forall|i: int|
                    0 <= i < trace.len() - 1 ==> !(#[trigger] trace[i]).captured(),
    {
        self.close_in(false)
    }

    /// Policy 2: the agent sees the target and takes the greedy step towards
    /// it. A tick on which the target walks into the agent counts no step.
    /// The run ends with the first capture, and a step of the agent closes at
    /// most two steps of the distance.
    pub fn agent_2(&mut self) -> (count: i32)
        requires
            old(self).wf(),
        ensures
            final(self).wf(),
            final(self).board == old(self).board,
            old(self).captured() ==> count == 0 && *final(self) == *old(self),
            0 <= count,
            final(self).captured() || count == i32::MAX,
            final(self).captured() ==> gap(*old(self)) <= 2 * count + 1,
            exists|trace: Seq<Game>| #[trigger]
                closing_run(trace) && trace.first() == *old(self) && trace.last() == *final(self)
                    && count == strides(trace) && forall|i: int|
                    0 <= i < trace.len() - 1 ==> !(#[trigger] trace[i]).captured(),
    {
        self.close_in(true)
    }

    /// Policy 3: the agent jumps once to a node drawn at random and waits
    /// there until the target walks into it. The run begins after the jump
    /// and ends with the first capture.
    pub fn agent_3(&mut self) -> (count: i32)
        requires
            old(self).wf(),
        ensures
            final(self).wf(),
            final(self).board == old(self).board,
            0 <= count,
            final(self).captured() || count == i32::MAX,
            exists|trace: Seq<Game>| #[trigger]
                waiting_run(trace) && trace.first().board == old(self).board
                    && trace.first().target == old(self).target && trace.first().agent
                    == final(self).agent && trace.last() == *final(self) && count == trace.len()
                    - 1 && gap(trace.first()) <= count + gap(*final(self)) && forall|i: int|
                    0 <= i < trace.len() - 1 ==> !(#[trigger] trace[i]).captured(),
    {
        let n: usize = node_count(&self.board);
        self.agent = random_below(n);
        let ghost jumped = *self;
        let count = self.agent_0();
        proof {
            let trace = choose|trace: Seq<Game>| #[trigger]
                waiting_run(trace) && no_early_capture(trace) && trace.first() == jumped
                    && trace.last() == *self && count == trace.len() - 1;
            assert(waiting_run(trace) && trace.first().board == old(self).board
                && trace.first().target == old(self).target && trace.first().agent == self.agent
                && trace.last() == *self && count == trace.len() - 1 && gap(trace.first()) <= count
                + gap(*self) && no_early_capture(trace));
        }
        count
    }

    /// The uniform belief with which a policy starts.
    fn first_belief(&self) -> (belief: BeliefState)
        requires
            self.wf(),
        ensures
            uniform_over(belief, self.board),
            expects_around(belief, self.board, self.target),
    {
        match BeliefState::new(copy_board(&self.board)) {
            Ok(belief) => {
                proof {
                    let edges = board_edges(self.board);
                    assert forall|x: usize| #[trigger]
                        adjacent(edges, self.target, x) implies belief.weight(x as int) > 0 by {
                        lemma_neighbors_within(edges, board_nodes(self.board), self.target);
                        let list = neighbor_list(edges, self.target);
                        let at = choose|at: int| 0 <= at < list.len() && list[at] == x;
                        assert(list[at] < board_nodes(self.board));
                        assert(belief.weight(x as int) == 1);
                    }
                }
                belief
            },
            Err(_) => unreached(),
        }
    }

    /// One of the nodes that `belief` holds likeliest, drawn at random.
    fn likely_node(&self, belief: &BeliefState) -> (r: (usize, Vec<usize>))
        requires
            self.wf(),
            mirrors(*belief, self.board),
        ensures
            r.0 < board_nodes(self.board),
            r.1@ == likeliest(belief.weights()),
            r.1@.contains(r.0),
            forall|k: int| 0 <= k < r.1@.len() ==> r.1@[k] < board_nodes(self.board),
    {
        let choices = belief.get_most_likely();
        proof {
            belief.lemma_wf();
            lemma_likeliest(belief.weights());
        }
        match pick(&choices) {
            Ok(choice) => {
                proof {
                    let at = choose|at: int| 0 <= at < choices@.len() && choices@[at] == choice;
                    assert(likeliest(belief.weights())[at] < belief.weights().len());
                }
                (choice, choices)
            },
            Err(_) => unreached(),
        }
    }

    /// A node that the belief holds likeliest, drawn at random; where many
    /// neighbours are preferred, the preferred one of the likeliest nodes,
    /// starting from the drawn one.
    fn aim(&self, belief: &BeliefState, by_degree: bool) -> (r: usize)
        requires
            self.wf(),
            mirrors(*belief, self.board),
        ensures
            r < board_nodes(self.board),
            aims_at(*belief, self.board, r, by_degree),
    {
        let drawn = self.likely_node(belief);
        if by_degree {
            let choice = self.prefer_connected(&drawn.1, drawn.0);
            proof {
                if choice != drawn.0 {
                    let at = choose|at: int| 0 <= at < drawn.1@.len() && drawn.1@[at] == choice;
                    assert(drawn.1@[at] < board_nodes(self.board));
                }
                assert(is_preferred(board_edges(self.board), drawn.1@, drawn.0, choice));
            }
            choice
        } else {
            drawn.0
        }
    }

    /// Takes in a look at `place` and lets the belief follow the target's
    /// next step. The look is refused, and the belief stays, exactly where it
    /// would rule out every node. Where the belief held the target's node
    /// possible before, no look is refused, and afterwards the belief holds
    /// possible every node to which the target can step.
    pub fn look_and_follow(&self, belief: &mut BeliefState, place: usize) -> (r: Result<
        (),
        PursuitError,
    >)
        requires
            self.wf(),
            mirrors(*old(belief), self.board),
            place < board_nodes(self.board),
        ensures
            mirrors(*final(belief), self.board),
            r is Err <==> rules_out_all(*old(belief), place, self.target),
            old(belief).weight(self.target as int) > 0 ==> r is Ok,
            match r {
                Ok(_) => {
                    &&& looked(*old(belief), *final(belief), place, place == self.target)
                    &&& old(belief).weight(self.target as int) > 0 ==> expects_around(
                        *final(belief),
                        self.board,
                        self.target,
                    )
                },
                Err(e) => e == PursuitError::DegenerateBelief && *final(belief) == *old(belief),
            },
    {
        let ghost edges = board_edges(self.board);
        let ghost n = board_nodes(self.board);
        let ghost first = *belief;
        let seen = place == self.target;
        proof {
            first.lemma_wf();
            first.lemma_weight_bounds(place as int, self.target as int);
        }
        match belief.update_with_observation(place, seen) {
            Ok(_) => {},
            Err(e) => {
                return Err(e);
            },
        }
        let ghost second = *belief;
        belief.update_with_transition();
        proof {
            assert(first.observed(second, place as int, seen) && second.transitioned(*belief));
            if first.weight(self.target as int) > 0 {
                assert(second.weight(self.target as int) > 0);
                assert forall|x: usize| #[trigger]
                    adjacent(edges, self.target, x) implies belief.weight(x as int) > 0 by {
                    lemma_adjacent_symmetric(edges, self.target, x);
                    lemma_neighbors_within(edges, n, self.target);
                    let list = neighbor_list(edges, self.target);
                    let at = choose|at: int| 0 <= at < list.len() && list[at] == x;
                    assert(list[at] < n);
                    lemma_same_entries(second.adjacency()[x as int], neighbor_list(edges, x));
                    second.lemma_inflow_positive(x as int, self.target as int);
                }
            }
        }
        Ok(())
    }

    /// The agent's part of one tick of policies 6 and 7, once the target has
    /// stepped and the node `likely` to head for is drawn.
    ///
    /// An agent that stands on `likely` stays, and the belief with it: the
    /// answer is `false`. Any other agent takes the greedy step towards
    /// `likely` and looks at `likely`: the answer is `true`, unless the look
    /// is refused, which it is exactly where it would rule out every node.
    pub fn head_for(&mut self, belief: &mut BeliefState, likely: usize) -> (r: Result<
        bool,
        PursuitError,
    >)
        requires
            old(self).wf(),
            mirrors(*old(belief), old(self).board),
            likely < board_nodes(old(self).board),
        ensures
            final(self).wf(),
            final(self).board == old(self).board,
            final(self).target == old(self).target,
            mirrors(*final(belief), final(self).board),
            r is Err <==> old(self).agent != likely && rules_out_all(
                *old(belief),
                likely,
                old(self).target,
            ),
            match r {
                Ok(moved) => moved == (old(self).agent != likely) && heads_for(
                    *old(self),
                    *old(belief),
                    *final(self),
                    *final(belief),
                    likely,
                ),
                Err(e) => e == PursuitError::DegenerateBelief && one_step_nearer(
                    old(self).board,
                    old(self).agent,
                    final(self).agent,
                    likely,
                ) && *final(belief) == *old(belief),
            },
    {
        match self.greedy_step(likely) {
            Ok(next) => {
                self.agent = next;
                match self.look_and_follow(belief, likely) {
                    Ok(_) => Ok(true),
                    Err(e) => Err(e),
                }
            },
            Err(_) => Ok(false),
        }
    }

    /// The run of policies 4 and 5: on every tick the target steps, and the
    /// agent jumps to the node it aims at and looks there. The belief never
    /// rules out the node of the target, so no look is refused.
    fn jump_hunt(&mut self, by_degree: bool) -> (count: i32)
        requires
            old(self).wf(),
        ensures
            final(self).wf(),
            final(self).board == old(self).board,
            old(self).captured() ==> count == 0 && *final(self) == *old(self),
            jumped(*old(self), *final(self), count as int, by_degree),
    {
        let ghost start = *self;
        let mut belief = self.first_belief();
        let ghost mut games: Seq<Game> = seq![*self];
        let ghost mut beliefs: Seq<BeliefState> = seq![belief];
        let mut count: i32 = 0;
        while self.agent != self.target && count < i32::MAX
            invariant
                self.wf(),
                self.board == start.board,
                mirrors(belief, self.board),
                expects_around(belief, self.board, self.target),
                jumping_run(games, beliefs, by_degree),
                no_early_capture(games),
                games.first() == start,
                games.last() == *self,
                beliefs.last() == belief,
                count == games.len() - 1,
            decreases i32::MAX - count,
        {
            let ghost games_before = games;
            let ghost beliefs_before = beliefs;
            self.move_target();
            self.agent = self.aim(&belief, by_degree);
            match self.look_and_follow(&mut belief, self.agent) {
                Ok(_) => {},
                Err(_) => {
                    unreached::<()>();
                },
            }
            count = count + 1;
            proof {
                games = games_before.push(*self);
                beliefs = beliefs_before.push(belief);
                assert forall|i: int| 0 <= i < games.len() - 1 implies jumps(
                    #[trigger] games[i],
                    beliefs[i],
                    games[i + 1],
                    beliefs[i + 1],
                    by_degree,
                ) && !games[i].captured() by {
                    if i < games_before.len() - 1 {
                        assert(jumps(
                            games_before[i],
                            beliefs_before[i],
                            games_before[i + 1],
                            beliefs_before[i + 1],
                            by_degree,
                        ));
                    }
                }
            }
        }
        proof {
            assert(jumping_run(games, beliefs, by_degree) && no_early_capture(games)
                && games.first() == start && games.last() == *self && count == games.len() - 1);
        }
        count
    }

    /// Policy 4: the agent does not see the target. On every tick it jumps to
    /// one of the nodes that its belief holds likeliest, drawn at random, and
    /// looks there. The run ends with the first capture.
    pub fn agent_4(&mut self) -> (count: i32)
        requires
            old(self).wf(),
        ensures
            final(self).wf(),
            final(self).board == old(self).board,
            old(self).captured() ==> count == 0 && *final(self) == *old(self),
            0 <= count,
            final(self).captured() || count == i32::MAX,
            exists|games: Seq<Game>, beliefs: Seq<BeliefState>| #[trigger]
                jumping_run(games, beliefs, false) && games.first() == *old(self) && games.last()
                    == *final(self) && count == games.len() - 1 && forall|i: int|
                    0 <= i < games.len() - 1 ==> !(#[trigger] games[i]).captured(),
    {
        self.jump_hunt(false)
    }

    /// Policy 5: as policy 4, but among the likeliest nodes the agent prefers
    /// one with many neighbours.
    pub fn agent_5(&mut self) -> (count: i32)
        requires
            old(self).wf(),
        ensures
            final(self).wf(),
            final(self).board == old(self).board,
            old(self).captured() ==> count == 0 && *final(self) == *old(self),
            0 <= count,
            final(self).captured() || count == i32::MAX,
            exists|games: Seq<Game>, beliefs: Seq<BeliefState>| #[trigger]
                jumping_run(games, beliefs, true) && games.first() == *old(self) && games.last()
                    == *final(self) && count == games.len() - 1 && forall|i: int|
                    0 <= i < games.len() - 1 ==> !(#[trigger] games[i]).captured(),
    {
        self.jump_hunt(true)
    }

    /// The run of policies 6 and 7: on every tick the target steps, and the
    /// agent heads for the node it aims at.
    fn walk_hunt(&mut self, by_degree: bool) -> (r: Result<i32, PursuitError>)
        requires
            old(self).wf(),
        ensures
            final(self).wf(),
            final(self).board == old(self).board,
            old(self).captured() ==> r == Ok::<i32, PursuitError>(0) && *final(self) == *old(self),
            match r {
                Ok(count) => walked(*old(self), *final(self), count as int, by_degree),
                Err(e) => gave_up(*old(self), *final(self), e, by_degree),
            },
    {
        let ghost start = *self;
        let mut belief = self.first_belief();
        let ghost mut games: Seq<Game> = seq![*self];
        let ghost mut beliefs: Seq<BeliefState> = seq![belief];
        let mut count: i32 = 0;
        let mut patience: u64 = u64::MAX;
        while self.agent != self.target && count < i32::MAX
            invariant
                self.wf(),
                start == *old(self),
                self.board == start.board,
                mirrors(belief, self.board),
                walking_run(games, beliefs, by_degree),
                no_early_capture(games),
                games.first() == start,
                games.last() == *self,
                beliefs.last() == belief,
                count == strides(games),
                0 <= count,
                ends_stalled(games, beliefs, u64::MAX - patience, by_degree),
            decreases i32::MAX - count, patience,
        {
            proof {
                assert(never_captured(games));
            }
            if patience == 0 {
                return Err(PursuitError::EmptyChoiceSet);
            }
            let ghost was = *self;
            let ghost held = belief;
            self.move_target();
            let likely: usize = self.aim(&belief, by_degree);
            match self.head_for(&mut belief, likely) {
                Ok(moved) => {
                    proof {
                        lemma_walk_goes_on(games, beliefs, *self, belief, likely, by_degree);
                        if !moved {
                            lemma_stall_goes_on(
                                games,
                                beliefs,
                                *self,
                                belief,
                                by_degree,
                                u64::MAX - patience,
                            );
                        }
                        games = games.push(*self);
                        beliefs = beliefs.push(belief);
                    }
                    if moved {
                        count = count + 1;
                        patience = u64::MAX;
                    } else {
                        patience = patience - 1;
                    }
                },
                Err(e) => {
                    proof {
                        assert(aims_at(held, was.board, likely, by_degree) && was.agent != likely
                            && one_step_nearer(was.board, was.agent, self.agent, likely)
                            && rules_out_all(held, likely, self.target));
                        assert(look_refused(games.last(), beliefs.last(), *self, by_degree));
                    }
                    return Err(e);
                },
            }
        }
        Ok(count)
    }

    /// Policy 6: the agent does not see the target. On every tick it draws one
    /// of the nodes that its belief holds likeliest, takes the greedy step
    /// towards it, and looks at the drawn node, not at the node it reached.
    /// The run ends with the first capture.
    ///
    /// A tick on which the agent already stands on the drawn node counts no
    /// step and brings no look. The run is given up as `EmptyChoiceSet` after
    /// `u64::MAX` such ticks in a row, and as `DegenerateBelief` on the tick
    /// on which the look would rule out the last node that the belief held
    /// possible. An agent that starts on the target's node gets the count 0.
    pub fn agent_6(&mut self) -> (r: Result<i32, PursuitError>)
        requires
            old(self).wf(),
        ensures
            final(self).wf(),
            final(self).board == old(self).board,
            old(self).captured() ==> r == Ok::<i32, PursuitError>(0) && *final(self) == *old(self),
            match r {
                Ok(count) => {
                    &&& 0 <= count
                    &&& final(self).captured() || count == i32::MAX
                    &&& exists|games: Seq<Game>, beliefs: Seq<BeliefState>| #[trigger]
                        walking_run(games, beliefs, false) && games.first() == *old(self)
                            && games.last() == *final(self) && count == strides(games)
                            && forall|i: int|
                            0 <= i < games.len() - 1 ==> !(#[trigger] games[i]).captured()
                },
                Err(e) => gave_up(*old(self), *final(self), e, false),
            },
    {
        self.walk_hunt(false)
    }

    /// Policy 7: as policy 6, but among the likeliest nodes the agent heads
    /// for one with many neighbours.
    pub fn agent_7(&mut self) -> (r: Result<i32, PursuitError>)
        requires
            old(self).wf(),
        ensures
            final(self).wf(),
            final(self).board == old(self).board,
            old(self).captured() ==> r == Ok::<i32, PursuitError>(0) && *final(self) == *old(self),
            match r {
                Ok(count) => {
                    &&& 0 <= count
                    &&& final(self).captured() || count == i32::MAX
                    &&& exists|games: Seq<Game>, beliefs: Seq<BeliefState>| #[trigger]
                        walking_run(games, beliefs, true) && games.first() == *old(self)
                            && games.last() == *final(self) && count == strides(games)
                            && forall|i: int|
                            0 <= i < games.len() - 1 ==> !(#[trigger] games[i]).captured()
                },
                Err(e) => gave_up(*old(self), *final(self), e, true),
            },
    {
        self.walk_hunt(true)
    }
}

} // verus!
