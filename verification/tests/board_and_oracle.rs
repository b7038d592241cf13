use petgraph::graph::{Graph, NodeIndex};
use petgraph::Undirected;
use pursuit::chance::pick;
use pursuit::error::PursuitError;
use pursuit::game::{board_is_sound, degree, Game, END_CAP, SIZE, START_CAP};
use pursuit::oracle::{closer_among, distance, first_nearest};

fn cycle(n: usize) -> Graph<u32, i32, Undirected> {
    let mut g = Graph::new_undirected();
    for i in 0..n {
        g.add_node(i as u32);
    }
    for i in 0..n {
        g.add_edge(NodeIndex::new(i), NodeIndex::new((i + 1) % n), 1);
    }
    g
}

fn two_triangles() -> Graph<u32, i32, Undirected> {
    let mut g = Graph::new_undirected();
    for i in 0..6 {
        g.add_node(i);
    }
    for (a, b) in [(0, 1), (1, 2), (2, 0), (3, 4), (4, 5), (5, 3)] {
        g.add_edge(NodeIndex::new(a), NodeIndex::new(b), 1);
    }
    g
}

#[test]
fn distances_on_a_ring() {
    let g = cycle(6);
    assert_eq!(distance(&g, 0, 0), Ok(0));
    assert_eq!(distance(&g, 0, 1), Ok(1));
    assert_eq!(distance(&g, 0, 2), Ok(2));
    assert_eq!(distance(&g, 0, 3), Ok(3));
    assert_eq!(distance(&g, 0, 4), Ok(2));
    assert_eq!(distance(&g, 0, 5), Ok(1));
}

#[test]
fn distance_to_self_is_zero_and_distance_is_symmetric() {
    let game = Game::new();
    for a in 0..SIZE {
        assert_eq!(distance(&game.board, a, a), Ok(0));
        for b in 0..SIZE {
            let there = distance(&game.board, a, b);
            assert!(there.is_ok());
            assert_eq!(there, distance(&game.board, b, a));
        }
    }
}

#[test]
fn no_path_between_two_parts() {
    let g = two_triangles();
    assert_eq!(distance(&g, 0, 2), Ok(1));
    assert_eq!(distance(&g, 0, 4), Err(PursuitError::NoPath));
    assert_eq!(distance(&g, 4, 0), Err(PursuitError::NoPath));
}

#[test]
fn a_node_off_the_board_is_refused() {
    let g = cycle(4);
    assert_eq!(distance(&g, 0, 4), Err(PursuitError::InvalidTopology));
    assert_eq!(distance(&g, 9, 1), Err(PursuitError::InvalidTopology));
}

#[test]
fn degrees_count_edges() {
    let mut g = cycle(5);
    g.add_edge(NodeIndex::new(0), NodeIndex::new(2), 1);
    g.add_edge(NodeIndex::new(0), NodeIndex::new(0), 1);
    assert_eq!(degree(&g, 0), 4);
    assert_eq!(degree(&g, 1), 2);
    assert_eq!(degree(&g, 2), 3);
    assert_eq!(degree(&g, 5), 0);
}

#[test]
fn sound_and_unsound_boards() {
    assert!(board_is_sound(&cycle(4)));
    assert!(board_is_sound(&cycle(1)));
    assert!(!board_is_sound(&two_triangles()));
    let empty: Graph<u32, i32, Undirected> = Graph::new_undirected();
    assert!(!board_is_sound(&empty));
    let mut lonely = cycle(3);
    lonely.add_node(3);
    assert!(!board_is_sound(&lonely));
}

#[test]
fn a_game_needs_a_sound_board_and_players_on_it() {
    assert!(matches!(Game::on_board(two_triangles(), 0, 1), Err(PursuitError::InvalidTopology)));
    assert!(matches!(Game::on_board(cycle(4), 4, 0), Err(PursuitError::InvalidTopology)));
    assert!(matches!(Game::on_board(cycle(4), 0, 7), Err(PursuitError::InvalidTopology)));
    let game = Game::on_board(cycle(4), 2, 0).unwrap();
    assert_eq!(game.target, 2);
    assert_eq!(game.agent, 0);
    assert_eq!(game.board.node_count(), 4);
    assert_eq!(game.target_distance(), 2);
    assert_eq!(game.nodes(), 4);
}

#[test]
fn generated_boards_are_rings_with_a_quarter_more_edges() {
    for _ in 0..50 {
        let game = Game::new();
        let g = &game.board;
        assert_eq!(g.node_count(), SIZE);
        assert_eq!(g.edge_count(), SIZE + SIZE / 4);
        assert_eq!(g.edge_count(), 50);
        assert!(g.edge_weights().all(|w| *w == 1));
        assert_eq!(game.agent, 0);
        assert!(game.target < SIZE);
        assert!(board_is_sound(g));
        for i in 0..SIZE {
            assert!(g.contains_edge(NodeIndex::new(i), NodeIndex::new((i + 1) % SIZE)));
            let d = degree(g, i);
            assert_eq!(d, g.neighbors(NodeIndex::new(i)).count());
            assert!(d >= 2 && d <= START_CAP + 1);
            for j in 0..SIZE {
                assert!(g.edges_connecting(NodeIndex::new(i), NodeIndex::new(j)).count() <= 1);
            }
            assert_eq!(g.edges_connecting(NodeIndex::new(i), NodeIndex::new(i)).count(), 0);
        }
        assert!(END_CAP < START_CAP);
    }
}

#[test]
fn generated_boards_differ() {
    let mut counts = std::collections::HashSet::new();
    let mut targets = std::collections::HashSet::new();
    for _ in 0..40 {
        let game = Game::new();
        let pairs: Vec<(usize, usize)> = game
            .board
            .edge_indices()
            .map(|e| game.board.edge_endpoints(e).unwrap())
            .map(|(a, b)| (a.index(), b.index()))
            .collect();
        counts.insert(pairs);
        targets.insert(game.target);
    }
    assert!(counts.len() > 1);
    assert!(targets.len() > 1);
}

#[test]
fn small_and_refused_sizes() {
    assert!(matches!(Game::generate(0), Err(PursuitError::InvalidTopology)));
    let one = Game::generate(1).unwrap();
    assert_eq!(one.board.node_count(), 1);
    assert_eq!(one.board.edge_count(), 1);
    assert_eq!(one.target, 0);
    let two = Game::generate(2).unwrap();
    assert_eq!(two.board.edge_count(), 2);
    assert_eq!(degree(&two.board, 0), 2);
    let three = Game::generate(3).unwrap();
    assert_eq!(three.board.edge_count(), 3);
    for _ in 0..200 {
        // the one edge that a ring of four can take is a diagonal
        let four = Game::generate(4).unwrap();
        assert_eq!(four.board.edge_count(), 5);
        let (a, b) = four.board.edge_endpoints(four.board.edge_indices().last().unwrap()).unwrap();
        assert_eq!((a.index() + 2) % 4, b.index());
        let five = Game::generate(5).unwrap();
        assert_eq!(five.board.edge_count(), 6);
        assert!(board_is_sound(&five.board));
        let eight = Game::generate(8).unwrap();
        assert_eq!(eight.board.edge_count(), 10);
        assert!(eight.board.edge_weights().all(|w| *w == 1));
        assert!(board_is_sound(&eight.board));
    }
}

#[test]
fn every_size_gets_its_quarter_of_edges() {
    for size in 1..60 {
        let game = Game::generate(size).unwrap();
        assert_eq!(game.board.node_count(), size);
        assert_eq!(game.board.edge_count(), size + size / 4);
        assert!(board_is_sound(&game.board));
        if size >= 3 {
            for e in game.board.edge_indices() {
                let (a, b) = game.board.edge_endpoints(e).unwrap();
                assert!(a != b);
                assert_eq!(game.board.edges_connecting(a, b).count(), 1);
            }
        }
    }
}

#[test]
fn a_copy_has_the_same_board_and_players() {
    let game = Game::new();
    let copy = game.clone();
    assert_eq!(copy.target, game.target);
    assert_eq!(copy.agent, game.agent);
    assert_eq!(copy.board.node_count(), game.board.node_count());
    assert_eq!(copy.board.edge_count(), game.board.edge_count());
    for e in game.board.edge_indices() {
        assert_eq!(copy.board.edge_endpoints(e), game.board.edge_endpoints(e));
        assert_eq!(copy.board.edge_weight(e), game.board.edge_weight(e));
    }
}

#[test]
fn picking_from_nothing_is_refused() {
    assert_eq!(pick(&vec![]), Err(PursuitError::EmptyChoiceSet));
}

#[test]
fn picking_returns_an_entry() {
    let choices = vec![3, 8, 21];
    let mut seen = std::collections::HashSet::new();
    for _ in 0..200 {
        let x = pick(&choices).unwrap();
        assert!(choices.contains(&x));
        seen.insert(x);
    }
    assert_eq!(seen.len(), 3);
}

#[test]
fn nearer_entries_are_kept_in_order() {
    let dist = vec![Some(2), Some(1), Some(3), None, Some(1), Some(0)];
    assert_eq!(closer_among(&vec![2, 1, 3, 4, 5, 1], &dist, 0), vec![1, 4, 5, 1]);
    assert_eq!(closer_among(&vec![2, 1, 3, 4, 5], &dist, 3), vec![2, 1, 4, 5]);
    assert_eq!(closer_among(&vec![0, 1, 2, 3, 4], &dist, 5), vec![]);
    assert_eq!(closer_among(&vec![], &dist, 2), vec![]);
    assert_eq!(closer_among(&vec![0, 9, 5], &dist, 9), vec![0, 5]);
    assert_eq!(closer_among(&vec![0, 9, 3], &dist, 1), vec![]);
}

#[test]
fn the_first_of_the_nearest_wins() {
    let dist = vec![Some(2), Some(1), Some(3), None, Some(1), Some(0)];
    assert_eq!(first_nearest(&vec![2, 0, 4, 1], &dist), Ok(4));
    assert_eq!(first_nearest(&vec![2, 0, 1, 4], &dist), Ok(1));
    assert_eq!(first_nearest(&vec![3], &dist), Ok(3));
    assert_eq!(first_nearest(&vec![3, 2, 5, 5], &dist), Ok(5));
    assert_eq!(first_nearest(&vec![3, 9, 7], &dist), Ok(3));
    assert_eq!(first_nearest(&vec![9, 2], &dist), Ok(2));
    assert_eq!(first_nearest(&vec![], &dist), Err(PursuitError::EmptyChoiceSet));
}
