//! Pursuit of a randomly walking target on an undirected graph.
//!
//! An agent hunts a target that takes one random step per tick. The agent
//! follows one of eight policies: it waits, it closes in on a target it sees,
//! or it keeps a belief over where an unseen target is and jumps or walks to
//! the likeliest node. The belief is kept in exact arithmetic, so that its
//! probabilities add up to one at all times.
//!
//! - [`board`]: the board, a `petgraph` graph, and what is taken on trust of it
//! - [`walks`]: facts about adjacency, walks and hop distances
//! - [`counting`]: how many nodes meet a condition
//! - [`oracle`]: shortest-path queries and the choice of a step
//! - [`natural`]: natural numbers of any size
//! - [`sums`]: finite sums, and why no mass is lost in a transition
//! - [`belief`]: the belief and its two updates
//! - [`chance`]: random draws
//! - [`game`]: the game, its board generator and the target's walk
//! - [`policies`]: the eight policies
//! - [`error`]: what can go wrong

pub mod belief;
pub mod board;
pub mod chance;
pub mod counting;
pub mod error;
pub mod game;
pub mod natural;
pub mod oracle;
pub mod policies;
pub mod sums;
pub mod walks;
