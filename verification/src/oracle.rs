//! Shortest-path queries on a board, and the choice of a step that brings a
//! pursuer closer to where it wants to go.

use crate::board::{
    board_edges, board_nodes, distances_from, hop_distance, node_count, occurrences, MAX_NODES,
};
use crate::error::PursuitError;
use crate::walks::lemma_hop_distance;
use petgraph::graph::Graph;
use petgraph::Undirected;
use vstd::prelude::*;

verus! {

/// How far node `x` is by the table `dist`; a node that the table does not
/// reach, or does not hold, is further than any that it reaches.
pub open spec fn far(dist: Seq<Option<i32>>, x: int) -> int {
    if 0 <= x < dist.len() {
        match dist[x] {
            Some(d) => d as int,
            None => 0x8000_0000,
        }
    } else {
        0x8000_0000
    }
}

/// The entries of `around` that are nearer by `dist` than `here`, in their
/// order.
pub open spec fn nearer(around: Seq<usize>, dist: Seq<Option<i32>>, here: int) -> Seq<usize>
    decreases around.len(),
{
    if around.len() == 0 {
        Seq::empty()
    } else {
        let rest = nearer(around.drop_last(), dist, here);
        if far(dist, around.last() as int) < far(dist, here) {
            rest.push(around.last())
        } else {
            rest
        }
    }
}

/// `k` is the first place of `candidates` whose entry is nearest by `dist`.
pub open spec fn is_first_nearest(candidates: Seq<usize>, dist: Seq<Option<i32>>, k: int) -> bool {
    &&& 0 <= k < candidates.len()
    &&& forall|j: int|
        0 <= j < candidates.len() ==> far(dist, candidates[k] as int) <= far(
            dist,
            #[trigger] candidates[j] as int,
        )
    &&& forall|j: int|
        0 <= j < k ==> far(dist, candidates[k] as int) < far(dist, #[trigger] candidates[j] as int)
}

/// What `nearer` keeps: exactly the entries that are nearer than `here`.
pub proof fn lemma_nearer(around: Seq<usize>, dist: Seq<Option<i32>>, here: int)
    ensures
        forall|j: int|
            0 <= j < nearer(around, dist, here).len() ==> around.contains(
                #[trigger] nearer(around, dist, here)[j],
            ) && far(dist, nearer(around, dist, here)[j] as int) < far(dist, here),
        forall|k: int|
            0 <= k < around.len() && far(dist, #[trigger] around[k] as int) < far(dist, here)
                ==> nearer(around, dist, here).contains(around[k]),
    decreases around.len(),
{
    if around.len() > 0 {
        let init = around.drop_last();
        let kept = nearer(around, dist, here);
        let before = nearer(init, dist, here);
        lemma_nearer(init, dist, here);
        assert forall|j: int| 0 <= j < kept.len() implies around.contains(#[trigger] kept[j])
            && far(dist, kept[j] as int) < far(dist, here) by {
            if j < before.len() {
                assert(kept[j] == before[j]);
                let at = choose|at: int| 0 <= at < init.len() && init[at] == before[j];
                assert(around[at] == kept[j]);
            } else {
                assert(around[around.len() - 1] == kept[j]);
            }
        }
        assert forall|k: int|
            0 <= k < around.len() && far(dist, #[trigger] around[k] as int) < far(
                dist,
                here,
            ) implies kept.contains(around[k]) by {
            if k < init.len() {
                assert(init[k] == around[k]);
                let at = choose|at: int| 0 <= at < before.len() && before[at] == init[k];
                assert(kept[at] == around[k]);
            } else {
                assert(kept[kept.len() - 1] == around[k]);
            }
        }
    }
}

/// `nearer` keeps every entry that is nearer than `here` as often as it
/// occurs, and no other.
pub proof fn lemma_nearer_count(around: Seq<usize>, dist: Seq<Option<i32>>, here: int, x: usize)
    ensures
        occurrences(nearer(around, dist, here), x) == if far(dist, x as int) < far(dist, here) {
            occurrences(around, x)
        } else {
            0
        },
    decreases around.len(),
{
    if around.len() > 0 {
        let init = around.drop_last();
        let before = nearer(init, dist, here);
        lemma_nearer_count(init, dist, here, x);
        if far(dist, around.last() as int) < far(dist, here) {
            assert(before.push(around.last()).drop_last() =~= before);
        }
    }
}

/// The number of steps of a shortest walk from `a` to `b` on `board`.
///
/// A board too large for hop counts, or a node that is not on it, is refused
/// as `InvalidTopology`; two nodes that no walk joins as `NoPath`.
pub fn distance(board: &Graph<u32, i32, Undirected>, a: usize, b: usize) -> (r: Result<
    i32,
    PursuitError,
>)
    ensures
        match r {
            Ok(d) => a < board_nodes(*board) && b < board_nodes(*board) && hop_distance(
                board_edges(*board),
                a,
                b,
            ) == Some(d as int),
            Err(PursuitError::InvalidTopology) => board_nodes(*board) > MAX_NODES || a
                >= board_nodes(*board) || b >= board_nodes(*board),
            Err(PursuitError::NoPath) => board_nodes(*board) <= MAX_NODES && a < board_nodes(
                *board,
            ) && b < board_nodes(*board) && hop_distance(board_edges(*board), a, b) is None,
            Err(_) => false,
        },
{
    let n: usize = node_count(board);
    if n > MAX_NODES || a >= n || b >= n {
        return Err(PursuitError::InvalidTopology);
    }
    let table = distances_from(board, a);
    proof {
        lemma_hop_distance(board_edges(*board), a, b);
    }
    match table[b] {
        Some(d) => Ok(d),
        None => Err(PursuitError::NoPath),
    }
}

/// The entries of `around` that are nearer by `dist` than `here`, in their
/// order.
pub fn closer_among(around: &Vec<usize>, dist: &Vec<Option<i32>>, here: usize) -> (r: Vec<usize>)
    ensures
        r@ == nearer(around@, dist@, here as int),
{
    let limit: i64 = reach(dist, here);
    let mut out: Vec<usize> = Vec::new();
    let mut k: usize = 0;
    while k < around.len()
        invariant
            k <= around@.len(),
            limit == far(dist@, here as int),
            out@ == nearer(around@.take(k as int), dist@, here as int),
        decreases around@.len() - k,
    {
        let x: usize = around[k];
        proof {
            let upto = around@.take(k as int + 1);
            assert(upto.drop_last() =~= around@.take(k as int));
            assert(upto.last() == x);
        }
        if reach(dist, x) < limit {
            out.push(x);
        }
        k += 1;
    }
    proof {
        assert(around@.take(around@.len() as int) =~= around@);
    }
    out
}

/// The first of `candidates` that is nearest by `dist`; refused where there
/// is no candidate.
pub fn first_nearest(candidates: &Vec<usize>, dist: &Vec<Option<i32>>) -> (r: Result<
    usize,
    PursuitError,
>)
    ensures
        match r {
            Ok(x) => exists|k: int| is_first_nearest(candidates@, dist@, k) && candidates@[k] == x,
            Err(e) => e == PursuitError::EmptyChoiceSet && candidates@.len() == 0,
        },
{
    if candidates.len() == 0 {
        return Err(PursuitError::EmptyChoiceSet);
    }
    let mut best: usize = 0;
    let mut k: usize = 1;
    while k < candidates.len()
        invariant
            1 <= k <= candidates@.len(),
            best < k,
            is_first_nearest(candidates@.take(k as int), dist@, best as int),
        decreases candidates@.len() - k,
    {
        let ghost before = candidates@.take(k as int);
        let ghost after = candidates@.take(k as int + 1);
        let replace = reach(dist, candidates[k]) < reach(dist, candidates[best]);
        proof {
            assert forall|j: int| 0 <= j < before.len() implies after[j] == before[j] by {}
            if replace {
                assert forall|j: int| 0 <= j < after.len() implies far(
                    dist@,
                    after[k as int] as int,
                ) <= far(dist@, #[trigger] after[j] as int) by {
                    if j < k {
                        assert(far(dist@, before[best as int] as int) <= far(
                            dist@,
                            before[j] as int,
                        ));
                    }
                }
                assert forall|j: int| 0 <= j < k implies far(dist@, after[k as int] as int) < far(
                    dist@,
                    #[trigger] after[j] as int,
                ) by {
                    assert(far(dist@, before[best as int] as int) <= far(dist@, before[j] as int));
                }
            } else {
                assert forall|j: int| 0 <= j < after.len() implies far(
                    dist@,
                    after[best as int] as int,
                ) <= far(dist@, #[trigger] after[j] as int) by {
                    if j < k {
                        assert(far(dist@, before[best as int] as int) <= far(
                            dist@,
                            before[j] as int,
                        ));
                    }
                }
                assert forall|j: int| 0 <= j < best implies far(
                    dist@,
                    after[best as int] as int,
                ) < far(dist@, #[trigger] after[j] as int) by {
                    assert(far(dist@, before[best as int] as int) < far(dist@, before[j] as int));
                }
            }
        }
        if replace {
            best = k;
        }
        k += 1;
    }
    proof {
        assert(candidates@.take(candidates@.len() as int) =~= candidates@);
    }
    Ok(candidates[best])
}

/// How far node `x` is by the table `dist`.
fn reach(dist: &Vec<Option<i32>>, x: usize) -> (r: i64)
    ensures
        r == far(dist@, x as int),
{
    if x < dist.len() {
        match dist[x] {
            Some(d) => d as i64,
            None => 0x8000_0000,
        }
    } else {
        0x8000_0000
    }
}

} // verus!
