use petgraph::graph::{Graph, NodeIndex};
use petgraph::Undirected;
use pursuit::belief::BeliefState;
use pursuit::error::PursuitError;
use pursuit::game::Game;

fn cycle(n: usize) -> Graph<u32, i32, Undirected> {
    let mut g = Graph::new_undirected();
    for i in 0..n {
        g.add_node(i as u32);
    }
    for i in 0..n {
        g.add_edge(NodeIndex::new(i), NodeIndex::new((i + 1) % n), 1);
    }
    g
}

fn star(nodes: usize, hub: usize) -> Graph<u32, i32, Undirected> {
    let mut g = Graph::new_undirected();
    for i in 0..nodes {
        g.add_node(i as u32);
    }
    for i in 0..nodes {
        if i != hub {
            g.add_edge(NodeIndex::new(hub), NodeIndex::new(i), 1);
        }
    }
    g
}

fn weights(b: &BeliefState) -> Vec<u64> {
    (0..b.len()).map(|i| b.weight_at(i).to_u64().unwrap()).collect()
}

fn kite() -> Graph<u32, i32, Undirected> {
    // 0 - 1 - 2 - 3 - 0 with the chords 1 - 3 and a tail 2 - 4
    let mut g = Graph::new_undirected();
    for i in 0..5 {
        g.add_node(i);
    }
    for (a, b) in [(0, 1), (1, 2), (2, 3), (3, 0), (1, 3), (2, 4)] {
        g.add_edge(NodeIndex::new(a), NodeIndex::new(b), 1);
    }
    g
}

#[test]
fn the_target_steps_to_a_neighbour() {
    for _ in 0..100 {
        let mut game = Game::on_board(cycle(7), 3, 0).unwrap();
        game.move_target();
        assert!(game.target == 2 || game.target == 4);
        assert_eq!(game.agent, 0);
    }
}

#[test]
fn closer_neighbours_on_the_kite() {
    let game = Game::on_board(kite(), 4, 0).unwrap();
    assert_eq!(game.target_distance(), 3);
    let mut closer = game.closer_neighbors(4);
    closer.sort();
    assert_eq!(closer, vec![1, 3]);
    let step = game.greedy_step(4).unwrap();
    assert!(step == 1 || step == 3);

    let near = Game::on_board(kite(), 4, 1).unwrap();
    assert_eq!(near.closer_neighbors(4), vec![2]);
    assert_eq!(near.greedy_step(4), Ok(2));

    let there = Game::on_board(kite(), 4, 4).unwrap();
    assert_eq!(there.closer_neighbors(4), vec![]);
    assert_eq!(there.greedy_step(4), Err(PursuitError::EmptyChoiceSet));
}

#[test]
fn many_neighbours_are_preferred() {
    // degrees on the kite: 0 -> 2, 1 -> 3, 2 -> 3, 3 -> 3, 4 -> 1
    let game = Game::on_board(kite(), 4, 0).unwrap();
    assert_eq!(game.prefer_connected(&vec![0, 4], 4), 0);
    assert_eq!(game.prefer_connected(&vec![0, 4], 0), 0);
    assert_eq!(game.prefer_connected(&vec![4, 0, 2, 1, 3], 0), 2);
    assert_eq!(game.prefer_connected(&vec![4, 0, 2, 1, 3], 3), 3);
    assert_eq!(game.prefer_connected(&vec![4, 0, 2, 1, 3], 1), 1);
    assert_eq!(game.prefer_connected(&vec![], 4), 4);
}

#[test]
fn greedy_pursuit_on_a_ring_of_four_is_quick() {
    for _ in 0..500 {
        let mut game = Game::on_board(cycle(4), 2, 0).unwrap();
        let steps = game.agent_2();
        assert!(steps <= 2);
        assert!(steps >= 0);
        assert_eq!(steps, 1);
        assert_eq!(game.agent, game.target);
        assert!(game.agent == 1 || game.agent == 3);
    }
}

#[test]
fn random_pursuit_on_a_ring_of_four_is_quick() {
    for _ in 0..500 {
        let mut game = Game::on_board(cycle(4), 2, 0).unwrap();
        let steps = game.agent_1();
        assert!(steps <= 2);
        assert_eq!(steps, 1);
        assert_eq!(game.agent, game.target);
        assert!(game.agent == 1 || game.agent == 3);
    }
}

#[test]
fn a_captured_target_costs_no_step() {
    let mut game = Game::on_board(cycle(5), 3, 3).unwrap();
    assert_eq!(game.agent_0(), 0);
    assert_eq!(game.agent_1(), 0);
    assert_eq!(game.agent_2(), 0);
    assert_eq!(game.agent_4(), 0);
    assert_eq!(game.agent_5(), 0);
    assert_eq!(game.agent_6(), Ok(0));
    assert_eq!(game.agent_7(), Ok(0));
    assert_eq!(game.agent, 3);
    assert_eq!(game.target, 3);
}

#[test]
fn the_waiting_agent_stays_where_it_is() {
    for _ in 0..50 {
        let mut game = Game::on_board(cycle(6), 3, 1).unwrap();
        let steps = game.agent_0();
        assert!(steps >= 2);
        assert_eq!(game.agent, 1);
        assert_eq!(game.target, 1);
    }
}

#[test]
fn every_policy_captures_on_a_generated_board() {
    for _ in 0..20 {
        let game = Game::new();
        let mut g = game.clone();
        assert!(g.agent_0() >= 0);
        assert_eq!(g.agent, g.target);
        let mut g = game.clone();
        assert!(g.agent_1() >= 0);
        assert_eq!(g.agent, g.target);
        let mut g = game.clone();
        assert!(g.agent_2() >= 0);
        assert_eq!(g.agent, g.target);
        let mut g = game.clone();
        assert!(g.agent_3() >= 0);
        assert_eq!(g.agent, g.target);
        let mut g = game.clone();
        assert!(g.agent_4() >= 0);
        assert_eq!(g.agent, g.target);
        let mut g = game.clone();
        assert!(g.agent_5() >= 0);
        assert_eq!(g.agent, g.target);
        let mut g = game.clone();
        assert!(g.agent_6().unwrap() >= 0);
        assert_eq!(g.agent, g.target);
        let mut g = game.clone();
        assert!(g.agent_7().unwrap() >= 0);
        assert_eq!(g.agent, g.target);
    }
}

fn mean_steps(policy: usize, trials: usize) -> f64 {
    let mut sum = 0f64;
    for _ in 0..trials {
        let mut game = Game::new();
        let steps = match policy {
            0 => game.agent_0(),
            1 => game.agent_1(),
            2 => game.agent_2(),
            3 => game.agent_3(),
            4 => game.agent_4(),
            5 => game.agent_5(),
            6 => game.agent_6().unwrap(),
            _ => game.agent_7().unwrap(),
        };
        assert!(steps >= 0 && steps < i32::MAX);
        assert_eq!(game.agent, game.target);
        sum += steps as f64;
    }
    sum / trials as f64
}

#[test]
fn waiting_ends_and_its_mean_is_stable() {
    let first = mean_steps(0, 1500);
    let second = mean_steps(0, 1500);
    assert!(first.is_finite() && second.is_finite());
    assert!(first > 20.0 && first < 400.0);
    assert!(second > 20.0 && second < 400.0);
    assert!((first - second).abs() < 0.4 * first.max(second));
}

#[test]
fn walking_beats_jumping_beats_waiting() {
    let trials = 800;
    let waiting = mean_steps(0, trials);
    let jumping = mean_steps(4, trials);
    let jumping_by_degree = mean_steps(5, trials);
    let walking = mean_steps(6, trials);
    let walking_by_degree = mean_steps(7, trials);
    assert!(walking <= jumping);
    assert!(walking <= jumping_by_degree);
    assert!(walking_by_degree <= jumping);
    assert!(walking_by_degree <= jumping_by_degree);
    assert!(jumping <= waiting);
    assert!(jumping_by_degree <= waiting);
}

#[test]
fn seeing_the_target_beats_guessing() {
    let trials = 500;
    let random_step = mean_steps(1, trials);
    let greedy_step = mean_steps(2, trials);
    let waiting = mean_steps(3, trials);
    assert!(random_step < waiting);
    assert!(greedy_step < waiting);
}

#[test]
fn a_belief_can_run_dry_on_a_path() {
    // On a path the belief can fall behind the target while the agent
    // stands on the likeliest node; the run then ends with a capture or is
    // given up, never with a wrong count.
    let mut path = Graph::new_undirected();
    for i in 0..3 {
        path.add_node(i);
    }
    path.add_edge(NodeIndex::new(0), NodeIndex::new(1), 1);
    path.add_edge(NodeIndex::new(1), NodeIndex::new(2), 1);
    for _ in 0..300 {
        let mut game = Game::on_board(path.clone(), 2, 0).unwrap();
        match game.agent_6() {
            Ok(steps) => {
                assert!(steps >= 0);
                assert_eq!(game.agent, game.target);
            }
            Err(e) => assert_eq!(e, PursuitError::DegenerateBelief),
        }
        let mut game = Game::on_board(path.clone(), 2, 0).unwrap();
        match game.agent_7() {
            Ok(steps) => {
                assert!(steps >= 0);
                assert_eq!(game.agent, game.target);
            }
            Err(e) => assert_eq!(e, PursuitError::DegenerateBelief),
        }
        let mut game = Game::on_board(path.clone(), 2, 0).unwrap();
        assert!(game.agent_4() >= 1);
        assert_eq!(game.agent, game.target);
        let mut game = Game::on_board(path.clone(), 2, 0).unwrap();
        assert!(game.agent_5() >= 1);
        assert_eq!(game.agent, game.target);
    }
}

#[test]
fn on_a_star_the_target_walks_into_the_hub() {
    for _ in 0..20 {
        let mut game = Game::on_board(star(40, 1), 2, 1).unwrap();
        assert_eq!(game.agent_0(), 1);
        assert_eq!((game.agent, game.target), (1, 1));

        // the target walks into the agent: no step of the agent is counted
        let mut game = Game::on_board(star(40, 1), 2, 1).unwrap();
        assert_eq!(game.agent_1(), 0);
        assert_eq!((game.agent, game.target), (1, 1));
        let mut game = Game::on_board(star(40, 1), 2, 1).unwrap();
        assert_eq!(game.agent_2(), 0);
        assert_eq!((game.agent, game.target), (1, 1));

        // the hub has the most neighbours of the likeliest nodes
        let mut game = Game::on_board(star(40, 1), 2, 0).unwrap();
        assert_eq!(game.agent_5(), 1);
        assert_eq!((game.agent, game.target), (1, 1));
        let mut game = Game::on_board(star(40, 1), 2, 0).unwrap();
        assert_eq!(game.agent_7(), Ok(1));
        assert_eq!((game.agent, game.target), (1, 1));
    }
}

#[test]
fn a_run_takes_at_least_the_distance() {
    for _ in 0..100 {
        let mut game = Game::on_board(cycle(9), 4, 0).unwrap();
        assert_eq!(game.target_distance(), 4);
        assert!(game.agent_0() >= 4);
        assert_eq!(game.agent, 0);
        let mut game = Game::on_board(cycle(9), 4, 0).unwrap();
        assert!(game.agent_1() >= 2);
        let mut game = Game::on_board(cycle(9), 4, 0).unwrap();
        assert!(game.agent_2() >= 2);
        let mut game = Game::on_board(cycle(9), 3, 0).unwrap();
        assert!(game.agent_2() >= 1);
    }
}

#[test]
fn the_jumping_agent_waits_where_it_landed() {
    for _ in 0..100 {
        let mut game = Game::on_board(cycle(5), 3, 3).unwrap();
        let steps = game.agent_3();
        assert!(steps >= 0);
        assert_eq!(game.agent, game.target);
        if game.agent == 3 {
            // it landed on the target
            assert_eq!(steps, 0);
        } else {
            assert!(steps >= 1);
        }
    }
}

#[test]
fn an_agent_on_the_likely_node_stays() {
    let mut game = Game::on_board(cycle(6), 3, 1).unwrap();
    let mut belief = BeliefState::new(cycle(6)).unwrap();
    assert_eq!(game.head_for(&mut belief, 1), Ok(false));
    assert_eq!((game.agent, game.target), (1, 3));
    assert_eq!(weights(&belief), vec![1, 1, 1, 1, 1, 1]);
    assert_eq!(belief.total_mass().to_u64(), Some(6));
}

#[test]
fn heading_for_a_node_steps_and_looks_there() {
    // the look at node 3 finds the target: all weight flows to 2 and 4
    let mut game = Game::on_board(cycle(6), 3, 1).unwrap();
    let mut belief = BeliefState::new(cycle(6)).unwrap();
    assert_eq!(game.head_for(&mut belief, 3), Ok(true));
    assert_eq!((game.agent, game.target), (2, 3));
    let w = weights(&belief);
    assert!(w[2] > 0 && w[2] == w[4]);
    assert_eq!(w[0] + w[1] + w[3] + w[5], 0);
    assert_eq!(belief.total_mass().to_u64(), Some(w[2] + w[4]));

    // the look at node 0 finds nothing: node 0 is ruled out, the rest flows
    let mut game = Game::on_board(cycle(6), 3, 1).unwrap();
    let mut belief = BeliefState::new(cycle(6)).unwrap();
    assert_eq!(game.head_for(&mut belief, 0), Ok(true));
    assert_eq!((game.agent, game.target), (0, 3));
    let w = weights(&belief);
    let total: u64 = w.iter().sum();
    assert_eq!(belief.total_mass().to_u64(), Some(total));
    // nodes 1 and 5 collect from one neighbour, the others from two
    assert_eq!(w[1], w[5]);
    assert_eq!(w[0], 2 * w[1]);
    assert_eq!(w[2], w[0]);
    assert_eq!(w[3], w[0]);
    assert_eq!(w[4], w[0]);
}

#[test]
fn a_look_that_rules_out_every_node_is_refused() {
    let mut belief = BeliefState::new(cycle(6)).unwrap();
    assert_eq!(belief.update_with_observation(2, true), Ok(()));
    assert_eq!(weights(&belief), vec![0, 0, 1, 0, 0, 0]);

    // the agent steps towards node 2, but the target is not there
    let mut game = Game::on_board(cycle(6), 4, 1).unwrap();
    assert_eq!(game.head_for(&mut belief, 2), Err(PursuitError::DegenerateBelief));
    assert_eq!((game.agent, game.target), (2, 4));
    assert_eq!(weights(&belief), vec![0, 0, 1, 0, 0, 0]);
    assert_eq!(belief.total_mass().to_u64(), Some(1));

    let game = Game::on_board(cycle(6), 4, 1).unwrap();
    assert_eq!(game.look_and_follow(&mut belief, 2), Err(PursuitError::DegenerateBelief));
    assert_eq!(weights(&belief), vec![0, 0, 1, 0, 0, 0]);

    // a look elsewhere is taken in, and so is one that finds the target
    assert_eq!(game.look_and_follow(&mut belief, 0), Ok(()));
    let w = weights(&belief);
    assert!(w[1] > 0 && w[1] == w[3]);
    assert_eq!(w[0] + w[2] + w[4] + w[5], 0);
    let seen = Game::on_board(cycle(6), 2, 1).unwrap();
    let mut belief = BeliefState::new(cycle(6)).unwrap();
    assert_eq!(belief.update_with_observation(2, true), Ok(()));
    assert_eq!(seen.look_and_follow(&mut belief, 2), Ok(()));
    let w = weights(&belief);
    assert!(w[1] > 0 && w[1] == w[3]);
}
