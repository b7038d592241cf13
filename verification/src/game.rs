//! The game: a board, a target that walks at random, and an agent that hunts
//! it by one of eight policies.

use crate::board::{
    adjacent, board_edges, board_nodes, board_weights, connected, copy_board, degree_of, distances_from,
    edges_within, empty_board, habitable, has_edge, hop_distance, is_distance, neighbor_list,
    neighbors_of, node_count, push_edge, push_node, reachable, MAX_NODES,
};
use crate::chance::{choose_from, pick, random_below};
use crate::counting::{
    busy, count_below, lemma_busy_after_push, lemma_count_gap, lemma_count_none,
    lemma_room_for_an_edge,
};
use crate::error::PursuitError;
use crate::walks::{
    lemma_adjacent_degree, lemma_adjacent_symmetric, lemma_chain_connected,
    lemma_connected_from_root, lemma_degree_after_push, lemma_edge_adjacent, lemma_hop_distance,
    lemma_more_edges_keep_connected, lemma_neighbors_within, lemma_no_neighbors_outside,
    lemma_same_entries,
};
use petgraph::graph::Graph;
use petgraph::Undirected;
use vstd::pervasive::unreached;
use vstd::prelude::*;

verus! {

/// The number of nodes of the board that `Game::new` makes.
pub const SIZE: usize = 40;

/// The most neighbours a node may have to become the first end of an added
/// edge.
pub const START_CAP: usize = 3;

/// The most neighbours a node may have to become the second end of an added
/// edge.
pub const END_CAP: usize = 2;

/// The edges of a ring of `n` nodes: from each node to the next, and at last
/// from the first node to the last.
pub open spec fn ring(n: nat) -> Seq<(usize, usize)> {
    Seq::new(
        n,
        |k: int|
            if k < n - 1 {
                (k as usize, (k + 1) as usize)
            } else {
                (0usize, (n - 1) as usize)
            },
    )
}

/// `e` may be added after `before`: it joins two different nodes that no edge
/// joins yet, and neither has too many neighbours.
pub open spec fn fresh_link(before: Seq<(usize, usize)>, e: (usize, usize)) -> bool {
    &&& e.0 != e.1
    &&& !adjacent(before, e.0, e.1)
    &&& degree_of(before, e.0) <= START_CAP
    &&& degree_of(before, e.1) <= END_CAP
}

/// `edges` is a ring of `n` nodes followed by `n / 4` added edges, each of
/// which was fresh when it came.
pub open spec fn grown_from_ring(edges: Seq<(usize, usize)>, n: nat) -> bool {
    &&& edges.len() == n + n / 4
    &&& edges.take(n as int) == ring(n)
    &&& forall|k: int| n <= k < edges.len() ==> fresh_link(edges.take(k), #[trigger] edges[k])
}

/// Every edge of `board` has the weight one.
pub open spec fn unit_weights(board: Graph<u32, i32, Undirected>) -> bool {
    &&& board_weights(board).len() == board_edges(board).len()
    &&& forall|k: int| 0 <= k < board_weights(board).len() ==> board_weights(board)[k] == 1
}

/// A board on which the game can be played: it has a node, hop counts fit,
/// every node has a neighbour, and every node can be reached from every
/// other.
pub open spec fn sound_board(board: Graph<u32, i32, Undirected>) -> bool {
    &&& 1 <= board_nodes(board) <= MAX_NODES
    &&& edges_within(board_edges(board), board_nodes(board))
    &&& habitable(board_edges(board), board_nodes(board))
    &&& connected(board_edges(board), board_nodes(board))
}

/// A ring is a board on which the game can be played.
pub proof fn lemma_ring_sound(n: nat)
    requires
        1 <= n <= usize::MAX,
    ensures
        edges_within(ring(n), n),
        habitable(ring(n), n),
        connected(ring(n), n),
{
    let edges = ring(n);
    assert forall|i: int| 1 <= i < n implies #[trigger] adjacent(
        edges,
        (i - 1) as usize,
        i as usize,
    ) by {
        assert(edges[i - 1] == ((i - 1) as usize, i as usize));
        lemma_edge_adjacent(edges, i - 1);
    }
    lemma_chain_connected(edges, n);
    assert forall|a: usize| a < n implies #[trigger] degree_of(edges, a) >= 1 by {
        if a >= 1 {
            assert(adjacent(edges, (a as int - 1) as usize, a as int as usize));
            lemma_adjacent_symmetric(edges, (a - 1) as usize, a);
            lemma_adjacent_degree(edges, a, (a - 1) as usize);
        } else if n >= 2 {
            assert(adjacent(edges, (1int - 1) as usize, 1int as usize));
            lemma_adjacent_degree(edges, 0, 1);
        } else {
            assert(edges[0] == (0usize, 0usize));
            lemma_edge_adjacent(edges, 0);
            lemma_adjacent_degree(edges, 0, 0);
        }
    }
}

/// Of the first `k` edges of a ring, those before the closing one, at most
/// two touch a node: the one that leaves it and the one that arrives.
proof fn lemma_chain_degree(n: nat, k: nat, a: usize)
    requires
        1 <= n <= usize::MAX,
        k <= n - 1,
    ensures
        degree_of(ring(n).take(k as int), a) == if a < k {
            1nat
        } else {
            0nat
        } + if 1 <= a <= k {
            1nat
        } else {
            0nat
        },
    decreases k,
{
    let edges = ring(n).take(k as int);
    if k > 0 {
        lemma_chain_degree(n, (k - 1) as nat, a);
        assert(edges.drop_last() =~= ring(n).take(k - 1));
        assert(edges.last() == ((k - 1) as usize, k as usize));
    }
}

/// No node of a ring has more than two neighbours.
pub proof fn lemma_ring_degree(n: nat, a: usize)
    requires
        1 <= n <= usize::MAX,
    ensures
        degree_of(ring(n), a) <= 2,
{
    lemma_chain_degree(n, (n - 1) as nat, a);
    assert(ring(n).drop_last() =~= ring(n).take(n - 1));
    assert(ring(n).last() == (0usize, (n - 1) as usize));
}

/// The number of neighbours of `node`, one for each edge that touches it; a
/// node that is not on the board has none.
pub fn degree(board: &Graph<u32, i32, Undirected>, node: usize) -> (d: usize)
    ensures
        d == degree_of(board_edges(*board), node),
{
    let n: usize = node_count(board);
    if node >= n {
        proof {
            lemma_no_neighbors_outside(board_edges(*board), n as nat, node);
        }
        return 0;
    }
    let around = neighbors_of(board, node);
    proof {
        lemma_same_entries(around@, neighbor_list(board_edges(*board), node));
    }
    around.len()
}

/// Whether the game can be played on `board`.
pub fn board_is_sound(board: &Graph<u32, i32, Undirected>) -> (r: bool)
    ensures
        r == sound_board(*board),
{
    let ghost edges = board_edges(*board);
    let n: usize = node_count(board);
    if n == 0 || n > MAX_NODES {
        return false;
    }
    let mut a: usize = 0;
    while a < n
        invariant
            a <= n,
            n == board_nodes(*board),
            edges == board_edges(*board),
            forall|x: usize| x < a ==> #[trigger] degree_of(edges, x) >= 1,
        decreases n - a,
    {
        if degree(board, a) == 0 {
            return false;
        }
        a += 1;
    }
    let table = distances_from(board, 0);
    let mut v: usize = 0;
    while v < n
        invariant
            v <= n,
            n == board_nodes(*board),
            n == table@.len(),
            edges == board_edges(*board),
            forall|x: usize|
                x < table@.len() ==> match #[trigger] table@[x as int] {
                    Some(d) => is_distance(edges, 0, x, d as int),
                    None => !reachable(edges, 0, x),
                },
            forall|x: usize| x < v ==> #[trigger] reachable(edges, 0, x),
        decreases n - v,
    {
        match table[v] {
            Some(d) => {
                proof {
                    lemma_hop_distance(edges, 0, v);
                }
            },
            None => {
                assert(!reachable(edges, 0, v));
                return false;
            },
        }
        v += 1;
    }
    proof {
        lemma_connected_from_root(edges, n as nat, 0);
    }
    true
}

/// A ring of `size` nodes.
fn build_ring(size: usize) -> (board: Graph<u32, i32, Undirected>)
    requires
        1 <= size <= MAX_NODES,
    ensures
        board_nodes(board) == size,
        board_edges(board) == ring(size as nat),
        unit_weights(board),
{
    let mut board = empty_board();
    push_node(&mut board, 0);
    let mut index: usize = 1;
    while index < size
        invariant
            1 <= index <= size,
            size <= MAX_NODES,
            board_nodes(board) == index,
            board_edges(board) == ring(size as nat).take(index - 1),
            unit_weights(board),
        decreases size - index,
    {
        push_node(&mut board, index as u32);
        push_edge(&mut board, index - 1, index, 1);
        proof {
            assert(ring(size as nat).take(index - 1).push((((index - 1) as usize), index))
                =~= ring(size as nat).take(index as int));
        }
        index += 1;
    }
    push_edge(&mut board, 0, size - 1, 1);
    proof {
        assert(ring(size as nat).take(size - 1).push((0usize, (size - 1) as usize)) =~= ring(
            size as nat,
        ));
    }
    board
}

/// `x` may be an end of an added edge: it has at most `cap` neighbours, and
/// where the other end `from` is known, it is another node that no edge joins
/// to `from` yet.
pub open spec fn open_to(
    edges: Seq<(usize, usize)>,
    cap: usize,
    from: Option<usize>,
    x: usize,
) -> bool {
    &&& degree_of(edges, x) <= cap
    &&& match from {
        Some(start) => x != start && !adjacent(edges, start, x),
        None => true,
    }
}

/// The nodes that may be an end of an added edge, in rising order.
fn open_nodes(board: &Graph<u32, i32, Undirected>, cap: usize, from: Option<usize>) -> (r: Vec<
    usize,
>)
    requires
        match from {
            Some(start) => start < board_nodes(*board),
            None => true,
        },
    ensures
        forall|x: usize|
            r@.contains(x) <==> x < board_nodes(*board) && open_to(
                board_edges(*board),
                cap,
                from,
                x,
            ),
{
    let ghost edges = board_edges(*board);
    let n: usize = node_count(board);
    let mut out: Vec<usize> = Vec::new();
    let mut a: usize = 0;
    while a < n
        invariant
            a <= n,
            n == board_nodes(*board),
            edges == board_edges(*board),
            match from {
                Some(start) => start < n,
                None => true,
            },
            forall|k: int|
                0 <= k < out@.len() ==> (#[trigger] out@[k]) < a && open_to(
                    edges,
                    cap,
                    from,
                    out@[k],
                ),
            forall|x: usize| x < a && #[trigger] open_to(edges, cap, from, x) ==> out@.contains(x),
        decreases n - a,
    {
        let apart = match from {
            Some(start) => a != start && !has_edge(board, start, a),
            None => true,
        };
        if apart && degree(board, a) <= cap {
            let ghost before = out@;
            out.push(a);
            proof {
                assert(out@[before.len() as int] == a);
                assert forall|x: usize| before.contains(x) implies out@.contains(x) by {
                    let at = choose|at: int| 0 <= at < before.len() && before[at] == x;
                    assert(out@[at] == x);
                }
            }
        }
        a += 1;
    }
    out
}

/// A game in progress.
pub struct Game {
    /// The board; it does not change during a game.
    pub board: Graph<u32, i32, Undirected>,
    /// The node on which the target stands.
    pub target: usize,
    /// The node on which the agent stands.
    pub agent: usize,
}

impl Clone for Game {
    fn clone(&self) -> (r: Self)
        ensures
            board_nodes(r.board) == board_nodes(self.board),
            board_edges(r.board) == board_edges(self.board),
            board_weights(r.board) == board_weights(self.board),
            r.target == self.target,
            r.agent == self.agent,
    {
        Game { board: copy_board(&self.board), target: self.target, agent: self.agent }
    }
}

impl Game {
    /// The game can be played: the board is sound and both players stand on
    /// it.
    pub open spec fn wf(&self) -> bool {
        &&& sound_board(self.board)
        &&& self.target < board_nodes(self.board)
        &&& self.agent < board_nodes(self.board)
    }

    /// The agent stands where the target stands.
    pub open spec fn captured(&self) -> bool {
        self.agent == self.target
    }

    /// The number of nodes of the board.
    pub fn nodes(&self) -> (n: usize)
        ensures
            n == board_nodes(self.board),
    {
        node_count(&self.board)
    }

    /// A game on a given board, with the players on given nodes. A board on
    /// which the game cannot be played, or a player off the board, is
    /// refused.
    pub fn on_board(board: Graph<u32, i32, Undirected>, target: usize, agent: usize) -> (r:
        Result<Game, PursuitError>)
        ensures
            match r {
                Ok(g) => g.wf() && g.board == board && g.target == target && g.agent == agent,
                Err(e) => e == PursuitError::InvalidTopology && !(sound_board(board) && target
                    < board_nodes(board) && agent < board_nodes(board)),
            },
    {
        if !board_is_sound(&board) {
            return Err(PursuitError::InvalidTopology);
        }
        let n: usize = node_count(&board);
        if target >= n || agent >= n {
            return Err(PursuitError::InvalidTopology);
        }
        Ok(Game { board, target, agent })
    }

    /// A game on a fresh random board of `size` nodes: a ring, and added to it
    /// `size / 4` edges, all of weight one. Each joins a node drawn at random among those with at
    /// most `START_CAP` neighbours to another drawn at random among those with
    /// at most `END_CAP` neighbours that it is not joined to yet. The agent
    /// starts on node 0, the target on a node drawn at random.
    pub fn generate(size: usize) -> (r: Result<Game, PursuitError>)
        ensures
            match r {
                Ok(g) => {
                    &&& 1 <= size <= MAX_NODES
                    &&& g.wf()
                    &&& board_nodes(g.board) == size
                    &&& board_edges(g.board).len() == size + size / 4
                    &&& grown_from_ring(board_edges(g.board), size as nat)
                    &&& unit_weights(g.board)
                    &&& g.agent == 0
                },
                Err(e) => e == PursuitError::InvalidTopology && !(1 <= size <= MAX_NODES),
            },
    {
        if size == 0 || size > MAX_NODES {
            return Err(PursuitError::InvalidTopology);
        }
        let mut board = build_ring(size);
        proof {
            lemma_ring_sound(size as nat);
            assert(board_edges(board).take(size as int) =~= ring(size as nat));
            assert forall|x: usize| x < size implies !#[trigger] busy(
                ring(size as nat),
                END_CAP as nat,
            )(x) by {
                lemma_ring_degree(size as nat, x);
            }
            lemma_count_none(size as nat, busy(ring(size as nat), END_CAP as nat));
        }
        let extra: usize = size / 4;
        let mut round: usize = 0;
        while round < extra
            invariant
                round <= extra,
                extra == size / 4,
                1 <= size <= MAX_NODES,
                board_nodes(board) == size,
                edges_within(board_edges(board), size as nat),
                habitable(board_edges(board), size as nat),
                connected(board_edges(board), size as nat),
                board_edges(board).len() == size + round,
                unit_weights(board),
                count_below(size as nat, busy(board_edges(board), END_CAP as nat)) <= 2 * round,
                board_edges(board).take(size as int) == ring(size as nat),
                forall|k: int|
                    size <= k < board_edges(board).len() ==> fresh_link(
                        board_edges(board).take(k),
                        #[trigger] board_edges(board)[k],
                    ),
            decreases extra - round,
        {
            let ghost before = board_edges(board);
            proof {
                lemma_count_gap(size as nat, busy(before, END_CAP as nat));
                let quiet = choose|x: usize| x < size && !#[trigger] busy(before, END_CAP as nat)(x);
                assert(open_to(before, START_CAP, None, quiet));
            }
            let start = Game::draw_end(&board, START_CAP, None);
            proof {
                lemma_room_for_an_edge(before, size as nat, start, END_CAP as nat);
                let free = choose|x: usize|
                    x < size && x != start && !adjacent(before, start, x) && #[trigger] degree_of(
                        before,
                        x,
                    ) <= END_CAP;
                assert(open_to(before, END_CAP, Some(start), free));
            }
            let end = Game::draw_end(&board, END_CAP, Some(start));
            push_edge(&mut board, start, end, 1);
            proof {
                let after = board_edges(board);
                let e = (start, end);
                lemma_more_edges_keep_connected(before, e, size as nat);
                lemma_busy_after_push(before, e, size as nat, END_CAP as nat);
                assert forall|a: usize| a < size implies #[trigger] degree_of(after, a) >= 1 by {
                    lemma_degree_after_push(before, e, a);
                    assert(degree_of(before, a) >= 1);
                }
                assert forall|k: int| 0 <= k < after.len() implies (#[trigger] after[k]).0 < size
                    && after[k].1 < size by {
                    if k < before.len() {
                        assert(after[k] == before[k]);
                    }
                }
                assert(after.take(size as int) =~= before.take(size as int));
                assert forall|k: int| size <= k < after.len() implies fresh_link(
                    after.take(k),
                    #[trigger] after[k],
                ) by {
                    if k < before.len() {
                        assert(after.take(k) =~= before.take(k));
                        assert(after[k] == before[k]);
                    } else {
                        assert(after.take(k) =~= before);
                    }
                }
            }
            round += 1;
        }
        let target = random_below(size);
        Ok(Game { board, target, agent: 0 })
    }

    /// An end for the next added edge, drawn at random among the nodes that
    /// are open to it.
    fn draw_end(board: &Graph<u32, i32, Undirected>, cap: usize, from: Option<usize>) -> (x: usize)
        requires
            match from {
                Some(start) => start < board_nodes(*board),
                None => true,
            },
            exists|free: usize|
                free < board_nodes(*board) && #[trigger] open_to(
                    board_edges(*board),
                    cap,
                    from,
                    free,
                ),
        ensures
            x < board_nodes(*board),
            open_to(board_edges(*board), cap, from, x),
    {
        let choices = open_nodes(board, cap, from);
        proof {
            let free = choose|free: usize|
                free < board_nodes(*board) && #[trigger] open_to(
                    board_edges(*board),
                    cap,
                    from,
                    free,
                );
            assert(choices@.contains(free));
        }
        match pick(&choices) {
            Ok(x) => x,
            Err(_) => unreached(),
        }
    }

    /// A game on a fresh random board of `SIZE` nodes.
    pub fn new() -> (g: Game)
        ensures
            g.wf(),
            board_nodes(g.board) == SIZE,
            board_edges(g.board).len() == SIZE + SIZE / 4,
            grown_from_ring(board_edges(g.board), SIZE as nat),
            unit_weights(g.board),
            g.agent == 0,
    {
        match Game::generate(SIZE) {
            Ok(g) => g,
            Err(_) => unreached(),
        }
    }

    /// Lets the target take one step of its walk: to a neighbour drawn at
    /// random.
    pub fn move_target(&mut self)
        requires
            old(self).wf(),
        ensures
            final(self).wf(),
            final(self).board == old(self).board,
            final(self).agent == old(self).agent,
            adjacent(board_edges(old(self).board), old(self).target, final(self).target),
    {
        let around = neighbors_of(&self.board, self.target);
        proof {
            let edges = board_edges(self.board);
            lemma_same_entries(around@, neighbor_list(edges, self.target));
            lemma_neighbors_within(edges, board_nodes(self.board), self.target);
            assert(degree_of(edges, self.target) >= 1);
        }
        match choose_from(&around) {
            Some(next) => {
                proof {
                    let list = neighbor_list(board_edges(self.board), self.target);
                    let at = choose|at: int| 0 <= at < list.len() && list[at] == next;
                    assert(list[at] < board_nodes(self.board));
                }
                self.target = next;
            },
            None => {
                proof {
                    assert(false);
                }
            },
        }
    }

    /// The number of steps of a shortest walk from the agent to the target.
    pub fn target_distance(&self) -> (d: i32)
        requires
            self.wf(),
        ensures
            hop_distance(board_edges(self.board), self.agent, self.target) == Some(d as int),
            d == 0 <==> self.captured(),
    {
        let table = distances_from(&self.board, self.agent);
        proof {
            let edges = board_edges(self.board);
            lemma_hop_distance(edges, self.agent, self.target);
            crate::walks::lemma_distance_zero(edges, self.agent, self.target);
            assert(reachable(edges, self.agent, self.target));
        }
        match table[self.target] {
            Some(d) => d,
            None => unreached(),
        }
    }
}

} // verus!
