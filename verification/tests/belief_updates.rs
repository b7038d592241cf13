use petgraph::graph::{Graph, NodeIndex};
use petgraph::Undirected;
use pursuit::belief::BeliefState;
use pursuit::error::PursuitError;

fn cycle(n: usize) -> Graph<u32, i32, Undirected> {
    let mut g = Graph::new_undirected();
    for i in 0..n {
        g.add_node(i as u32);
    }
    for i in 0..n {
        g.add_edge(NodeIndex::new(i), NodeIndex::new((i + 1) % n), 1);
    }
    g
}

fn star(leaves: usize) -> Graph<u32, i32, Undirected> {
    let mut g = Graph::new_undirected();
    g.add_node(0);
    for i in 1..=leaves {
        g.add_node(i as u32);
        g.add_edge(NodeIndex::new(0), NodeIndex::new(i), 1);
    }
    g
}

fn weights(b: &BeliefState) -> Vec<u64> {
    (0..b.len()).map(|i| b.weight_at(i).to_u64().unwrap()).collect()
}

fn mass(b: &BeliefState) -> u64 {
    b.total_mass().to_u64().unwrap()
}

fn probabilities(b: &BeliefState) -> Vec<f64> {
    let m = mass(b) as f64;
    weights(b).iter().map(|w| *w as f64 / m).collect()
}

#[test]
fn starts_uniform() {
    let b = BeliefState::new(cycle(4)).unwrap();
    assert_eq!(b.len(), 4);
    assert_eq!(weights(&b), vec![1, 1, 1, 1]);
    assert_eq!(mass(&b), 4);
    assert_eq!(probabilities(&b), vec![0.25, 0.25, 0.25, 0.25]);
    assert!(b.check_validity());
}

#[test]
fn refuses_a_board_without_nodes() {
    let g: Graph<u32, i32, Undirected> = Graph::new_undirected();
    assert!(matches!(BeliefState::new(g), Err(PursuitError::InvalidTopology)));
}

#[test]
fn refuses_a_node_without_neighbours() {
    let mut g = cycle(3);
    g.add_node(3);
    assert!(matches!(BeliefState::new(g), Err(PursuitError::InvalidTopology)));
}

#[test]
fn a_sighting_gives_certainty() {
    let mut b = BeliefState::new(cycle(5)).unwrap();
    b.update_with_transition();
    assert_eq!(b.update_with_observation(3, true), Ok(()));
    assert_eq!(weights(&b), vec![0, 0, 0, 1, 0]);
    assert_eq!(mass(&b), 1);
    assert_eq!(probabilities(&b), vec![0.0, 0.0, 0.0, 1.0, 0.0]);
    assert!(b.check_validity());
}

#[test]
fn an_empty_look_rules_out_one_node() {
    let mut b = BeliefState::new(cycle(4)).unwrap();
    assert_eq!(b.update_with_observation(1, false), Ok(()));
    assert_eq!(weights(&b), vec![1, 0, 1, 1]);
    assert_eq!(mass(&b), 3);
    let p = probabilities(&b);
    let third = 1.0 / 3.0;
    assert_eq!(p, vec![third, 0.0, third, third]);
    assert!(b.check_validity());
}

#[test]
fn ruling_out_the_last_node_is_refused() {
    let mut b = BeliefState::new(cycle(4)).unwrap();
    assert_eq!(b.update_with_observation(2, true), Ok(()));
    assert_eq!(b.update_with_observation(2, false), Err(PursuitError::DegenerateBelief));
    assert_eq!(weights(&b), vec![0, 0, 1, 0]);
    assert_eq!(mass(&b), 1);
    assert_eq!(b.update_with_observation(1, false), Ok(()));
    assert_eq!(weights(&b), vec![0, 0, 1, 0]);
    assert_eq!(mass(&b), 1);
}

#[test]
fn certainty_spreads_to_the_neighbours_only() {
    let mut b = BeliefState::new(cycle(5)).unwrap();
    b.update_with_observation(2, true).unwrap();
    b.update_with_transition();
    assert_eq!(probabilities(&b), vec![0.0, 0.5, 0.0, 0.5, 0.0]);
    assert!(b.check_validity());

    let mut s = BeliefState::new(star(3)).unwrap();
    s.update_with_observation(0, true).unwrap();
    s.update_with_transition();
    let w = weights(&s);
    let m = mass(&s);
    assert_eq!(w[0], 0);
    for i in 1..4 {
        assert_eq!(w[i] * 3, m);
    }
    s.update_with_transition();
    assert_eq!(probabilities(&s), vec![1.0, 0.0, 0.0, 0.0]);
}

#[test]
fn a_transition_weighs_by_the_senders_degree() {
    // node 0 has three neighbours, each leaf one: a leaf collects a third of
    // what node 0 holds, node 0 collects all that the leaves hold.
    let mut s = BeliefState::new(star(3)).unwrap();
    s.update_with_transition();
    let w = weights(&s);
    let m = mass(&s);
    // before: every node 1/4. after: node 0 gets 3/4, each leaf 1/12.
    assert_eq!(w[0] * 4, m * 3);
    for i in 1..4 {
        assert_eq!(w[i] * 12, m);
    }
    assert!(s.check_validity());
}

#[test]
fn mass_is_kept_over_many_updates() {
    let mut g = cycle(7);
    g.add_edge(NodeIndex::new(0), NodeIndex::new(3), 1);
    g.add_edge(NodeIndex::new(1), NodeIndex::new(5), 1);
    let mut b = BeliefState::new(g).unwrap();
    for tick in 0..60usize {
        let at = (tick * 3) % 7;
        let r = b.update_with_observation(at, tick == 20);
        assert!(r.is_ok() || r == Err(PursuitError::DegenerateBelief));
        assert!(b.check_validity());
        b.update_with_transition();
        assert!(b.check_validity());
        b.normalize();
        assert!(b.check_validity());
    }
    assert!(b.total_mass().to_u64().is_none());
}

#[test]
fn the_likeliest_of_a_uniform_belief_are_all_nodes() {
    let b = BeliefState::new(cycle(6)).unwrap();
    assert_eq!(b.get_most_likely(), vec![0, 1, 2, 3, 4, 5]);
}

#[test]
fn the_likeliest_after_a_sighting_is_that_node() {
    let mut b = BeliefState::new(cycle(6)).unwrap();
    b.update_with_observation(4, true).unwrap();
    assert_eq!(b.get_most_likely(), vec![4]);
}

#[test]
fn the_likeliest_are_listed_in_rising_order() {
    let mut b = BeliefState::new(star(4)).unwrap();
    b.update_with_transition();
    assert_eq!(b.get_most_likely(), vec![0]);
    b.update_with_observation(0, false).unwrap();
    assert_eq!(b.get_most_likely(), vec![1, 2, 3, 4]);
    b.update_with_observation(2, false).unwrap();
    assert_eq!(b.get_most_likely(), vec![1, 3, 4]);
}

#[test]
fn parallel_edges_count_twice() {
    let mut g: Graph<u32, i32, Undirected> = Graph::new_undirected();
    for i in 0..3 {
        g.add_node(i);
    }
    g.add_edge(NodeIndex::new(0), NodeIndex::new(1), 1);
    g.add_edge(NodeIndex::new(0), NodeIndex::new(1), 1);
    g.add_edge(NodeIndex::new(0), NodeIndex::new(2), 1);
    let mut b = BeliefState::new(g).unwrap();
    b.update_with_observation(0, true).unwrap();
    b.update_with_transition();
    let w = weights(&b);
    let m = mass(&b);
    assert_eq!(w[0], 0);
    assert_eq!(w[1] * 3, m * 2);
    assert_eq!(w[2] * 3, m);
}
