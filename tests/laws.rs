use pyramide::{
    build_full_graph, build_partial_graph, cherche_coups_possibles, components, coups_theoriques,
    deepest, distances, enchainer_coups, Coup, Direction, Orientation,
    PyraError, Pyramide,
};

fn coup(mil: usize, orientation: Orientation, dir: Direction) -> Coup {
    Coup { mil, orientation, dir }
}

#[test]
fn seed_round_trip_three_lines() {
    for diag in [false, true] {
        for s in 0..512u128 {
            assert_eq!(Pyramide::init_from_seed(3, s, diag).seed(), s);
        }
    }
}

#[test]
fn all_pegs_board() {
    for lines in 2..=5usize {
        let pyra = Pyramide::init_full(lines, false);
        let expected = (1u128 << (lines * lines)) - 1;
        assert_eq!(pyra.seed(), expected);
        assert_eq!(pyra.seed().count_ones() as usize, lines * lines);
    }
    assert_eq!(Pyramide::init_full(11, true).seed(), (1u128 << 121) - 1);
}

#[test]
fn move_removes_one_peg() {
    let mut pyra = Pyramide::init_from_seed(3, 510, false);
    assert_eq!(pyra.seed().count_ones(), 8);
    assert_eq!(pyra.coup(&coup(2, Orientation::Vertical, Direction::Haut)), Ok(()));
    assert_eq!(pyra.seed(), 443);
    assert_eq!(pyra.seed().count_ones(), 7);
}

#[test]
fn move_fails_exactly_when_not_legal() {
    let mut pyra = Pyramide::init_from_seed(3, 510, false);
    let out = coup(9, Orientation::Vertical, Direction::Haut);
    assert!(!pyra.is_coup_valid(&out));
    assert_eq!(pyra.coup(&out), Err(PyraError::OutOfRange));
    let apex = coup(0, Orientation::Horizontal, Direction::Bas);
    assert!(!pyra.is_coup_valid(&apex));
    assert_eq!(pyra.coup(&apex), Err(PyraError::IllegalMove));
    assert_eq!(pyra.seed(), 510);
    let diagonal = coup(1, Orientation::DiagonalD, Direction::Haut);
    let mut with_diag = Pyramide::init_from_seed(3, 478, true);
    let mut without_diag = Pyramide::init_from_seed(3, 478, false);
    assert!(with_diag.is_coup_valid(&diagonal));
    assert!(!without_diag.is_coup_valid(&diagonal));
    assert_eq!(with_diag.coup(&diagonal), Ok(()));
    assert_eq!(without_diag.coup(&diagonal), Err(PyraError::IllegalMove));
}

#[test]
fn theoretical_move_counts() {
    for lines in 2..=5usize {
        assert_eq!(coups_theoriques(&Pyramide::init_full(lines, false)).len(), lines * lines * 2 * 2);
        assert_eq!(coups_theoriques(&Pyramide::init_full(lines, true)).len(), lines * lines * 2 * 4);
    }
}

#[test]
fn reachable_graph_edges_are_moves() {
    let graph = build_partial_graph(vec![Pyramide::init_from_seed(3, 510, false)]);
    assert!(graph.contains_node(510));
    assert!(graph.contains_node(443));
    for (a, b, m) in graph.all_edges() {
        assert!(a <= b || a > b);
        let mut from_a = Pyramide::init_from_seed(3, a, false);
        let mut from_b = Pyramide::init_from_seed(3, b, false);
        let forward = from_a.coup(m).is_ok() && from_a.seed() == b;
        let backward = from_b.coup(m).is_ok() && from_b.seed() == a;
        assert!(forward || backward);
    }
}

#[test]
fn no_diagonal_edge_without_diagonal_rule() {
    let graph = build_partial_graph(vec![Pyramide::init_from_seed(4, 65534, false)]);
    assert!(graph.edge_count() > 0);
    for (_, _, m) in graph.all_edges() {
        assert!(m.orientation == Orientation::Horizontal || m.orientation == Orientation::Vertical);
    }
}

#[test]
fn no_root_gives_an_empty_graph() {
    let graph = build_partial_graph(vec![]);
    assert_eq!(graph.node_count(), 0);
    assert_eq!(graph.edge_count(), 0);
    assert_eq!(components(&graph), 0);
}

#[test]
fn repeated_roots_give_the_same_nodes() {
    let once = build_partial_graph(vec![Pyramide::init_from_seed(3, 510, true)]);
    let thrice = build_partial_graph(vec![
        Pyramide::init_from_seed(3, 510, true),
        Pyramide::init_from_seed(3, 510, true),
        Pyramide::init_from_seed(3, 443, true),
    ]);
    assert_eq!(once.node_count(), thrice.node_count());
    assert_eq!(once.edge_count(), thrice.edge_count());
}

#[test]
fn won_boards_are_leaves() {
    for diag in [false, true] {
        let theoretical = coups_theoriques(&Pyramide::init_full(3, diag));
        for s in 0..512u128 {
            let pyra = Pyramide::init_from_seed(3, s, diag);
            assert_eq!(pyra.partie_gagne(), s.count_ones() == 1);
            if s.count_ones() == 1 {
                assert!(cherche_coups_possibles(&pyra, &theoretical).is_none());
            }
        }
    }
}

#[test]
fn full_graph_of_two_lines() {
    // only the horizontal moves of the second row are ever legal:
    // 6 - 8, 7 - 9, 12 - 2, 13 - 3
    let graph = build_full_graph(2, false);
    assert_eq!(graph.node_count(), 15);
    assert_eq!(graph.edge_count(), 4);
    assert_eq!(components(&graph), 11);
    assert!(graph.contains_edge(6, 8));
    assert!(graph.contains_edge(7, 9));
    assert!(graph.contains_edge(2, 12));
    assert!(graph.contains_edge(3, 13));
    assert_eq!(components(&build_full_graph(2, true)), 11);
}

#[test]
fn distances_and_deepest() {
    let graph = build_partial_graph(vec![Pyramide::init_from_seed(2, 6, false)]);
    assert_eq!(graph.node_count(), 2);
    let mut dist = distances(&graph, 6);
    dist.sort();
    assert_eq!(dist, vec![(6, 0), (8, 1)]);
    assert_eq!(deepest(&dist), (1, vec![8]));
    assert_eq!(deepest(&vec![]), (0, vec![]));
    assert_eq!(deepest(&vec![(1, 2), (5, 3), (9, 3), (4, 0)]), (3, vec![5, 9]));
}

#[test]
fn distances_from_a_start_position() {
    let start = Pyramide::init_from_seed(3, 510, false);
    let graph = build_partial_graph(vec![start]);
    let dist = distances(&graph, 510);
    assert_eq!(dist.len(), graph.node_count());
    assert!(dist.contains(&(510, 0)));
    assert!(dist.contains(&(443, 1)));
    let (depth, seeds) = deepest(&dist);
    assert!(depth >= 1);
    for s in seeds {
        assert!(dist.contains(&(s, depth)));
    }
}

#[test]
fn five_move_sequence() {
    // c4->a4, c2->c4, d4->b4, d6->d4, b5->d5 on four rows, apex empty
    let mut pyra = Pyramide::init_from_seed(4, 65534, false);
    let coups = vec![
        coup(2, Orientation::Vertical, Direction::Haut),
        coup(5, Orientation::Horizontal, Direction::Bas),
        coup(6, Orientation::Vertical, Direction::Haut),
        coup(13, Orientation::Horizontal, Direction::Haut),
        coup(7, Orientation::Vertical, Direction::Bas),
    ];
    assert_eq!(enchainer_coups(coups, &mut pyra), Ok(()));
    assert_eq!(pyra.seed().count_ones(), 10);
    assert!(!pyra.partie_gagne());
}

#[test]
fn sequence_stops_at_illegal_move() {
    let mut pyra = Pyramide::init_from_seed(3, 510, false);
    let bad = coup(2, Orientation::Vertical, Direction::Haut);
    let coups = vec![bad, bad];
    assert_eq!(enchainer_coups(coups, &mut pyra), Err(bad));
    assert_eq!(pyra.seed(), 443);
}

#[test]
fn sequence_stops_when_won() {
    // two pegs on the second row and a hole: one jump wins
    let mut pyra = Pyramide::init_from_seed(2, 6, false);
    let win = coup(2, Orientation::Horizontal, Direction::Bas);
    let coups = vec![win, coup(2, Orientation::Horizontal, Direction::Haut)];
    assert_eq!(enchainer_coups(coups, &mut pyra), Ok(()));
    assert!(pyra.partie_gagne());
    assert_eq!(pyra.seed(), 8);
}

#[test]
fn cells_read_and_written() {
    let mut pyra = Pyramide::init_from_seed(3, 6, false);
    assert_eq!(pyra.get_cell(1), Ok(true));
    assert_eq!(pyra.get_cell(3), Ok(false));
    assert_eq!(pyra.get_cell(9), Err(PyraError::OutOfRange));
    assert_eq!(pyra.update_cell(3, Some(true)), Ok(()));
    assert_eq!(pyra.seed(), 14);
    assert_eq!(pyra.update_cell(9, Some(true)), Err(PyraError::OutOfRange));
    assert_eq!(pyra.cell_index_to_vec_index(9), Err(PyraError::OutOfRange));
}

#[test]
fn valid_move_around_a_cell() {
    let pyra = Pyramide::init_from_seed(3, 510, false);
    assert!(pyra.is_there_a_valid_coup(2));
    assert!(!pyra.is_there_a_valid_coup(0));
    assert!(!pyra.is_there_a_valid_coup(9));
}

#[test]
fn boards_compare_by_cells() {
    let a = Pyramide::init_from_seed(3, 42, false);
    let b = a.clone();
    assert!(a == b);
    assert!(a != Pyramide::init_from_seed(3, 43, false));
    assert!(a != Pyramide::init_from_seed(3, 42, true));
}
