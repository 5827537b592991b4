use pyramide::{
    cherche_coups_possibles, coups_theoriques, Coup, Direction, Orientation, Pyramide,
};

#[test]
fn create_pyra_2() {
    let pyra = Pyramide::init_full(2, false);
    assert_eq!(pyra.lines, 2);
    let expected_pyra = vec![
        None, None,       Some(true), None,       None,
        None, Some(true), Some(true), Some(true), None,
        None, None,       None,       None,       None];
    assert_eq!(pyra.cells, expected_pyra);
}

#[test]
fn create_pyra_3() {
    let pyra = Pyramide::init_full(3, false);
    assert_eq!(pyra.lines, 3);
    let cell = Some(true);
    let expected_pyra = vec![
        None, None, None, cell, None, None, None,
        None, None, cell, cell, cell, None, None,
        None, cell, cell, cell, cell, cell, None,
        None, None, None, None, None, None, None];
    assert_eq!(pyra.cells, expected_pyra);
}

#[test]
fn create_pyra_4() {
    let pyra = Pyramide::init_full(4, false);
    assert_eq!(pyra.lines, 4);
    let cell = Some(true);
    let expected_pyra = vec![
        None, None, None, None, cell, None, None, None, None,
        None, None, None, cell, cell, cell, None, None, None,
        None, None, cell, cell, cell, cell, cell, None, None,
        None, cell, cell, cell, cell, cell, cell, cell, None,
        None, None, None, None, None, None, None, None, None];
    assert_eq!(pyra.cells, expected_pyra);
}

#[test]
fn test_iterator() {
    let pyra = Pyramide::init_full(3, false);
    let mut it = pyra.iter();
    let mut count = 0;
    while let Some(elem) = it.next() {
        assert_eq!(elem, Some(true));
        count += 1;
    }
    assert_eq!(count, 9)
}

#[test]
fn test_init_seed_1() {
    let pyra = Pyramide::init_from_seed(3, 1, false);
    let celt = Some(true);
    let celf = Some(false);
    assert_eq!(pyra.cells, vec![
        None, None, None, celt, None, None, None,
        None, None, celf, celf, celf, None, None,
        None, celf, celf, celf, celf, celf, None,
        None, None, None, None, None, None, None])
}

#[test]
fn test_init_seed_6() {
    let pyra = Pyramide::init_from_seed(3, 6, false);
    let celt = Some(true);
    let celf = Some(false);
    assert_eq!(pyra.cells, vec![
        None, None, None, celf, None, None, None,
        None, None, celt, celt, celf, None, None,
        None, celf, celf, celf, celf, celf, None,
        None, None, None, None, None, None, None])
}

#[test]
fn test_iter_move_cells() {
    // _ _ F
    // _ T F T
    // F T F T F
    // seed : 170
    let pyra = Pyramide::init_from_seed(3, 170, false);
    let mut it = pyra.move_iter();
    let mut i = 0;
    while let Some(cell) = it.next() {
        if i % 2 == 0 {
            assert_eq!(cell, Some(true))
        } else {
            assert_eq!(cell, Some(false))
        }
        i += 1;
    }
}

#[test]
fn test_coup_valide_lines_3_seed_510() {
    // _ _ F
    // _ T T T
    // T T T T T
    // seed : 510
    let pyra = Pyramide::init_from_seed(3, 510, false);
    let coup = Coup { dir: Direction::Haut, mil: 2, orientation: Orientation::Vertical };
    assert!(pyra.is_coup_valid(&coup))
}

#[test]
fn test_coup_valide_lines_4_seed_65534() {
    // _ _ _ F
    // _ _ T T T
    // _ T T T T T
    // T T T T T T T
    // seed : 65534
    let pyra = Pyramide::init_from_seed(4, 65534, false);
    let coup = Coup { dir: Direction::Haut, mil: 2, orientation: Orientation::Vertical };
    assert!(pyra.is_coup_valid(&coup))
}

#[test]
fn test_cell_index_to_vec_index_size_3() {
    let pyra = Pyramide::init_full(3, false);
    let vec_idxs = [3, 9, 10, 11, 15, 16, 17, 18, 19];
    for (cell_idx, vec_idx) in std::iter::zip(0..9, vec_idxs) {
        assert_eq!(pyra.cell_index_to_vec_index(cell_idx), Ok(vec_idx))
    }
}

#[test]
fn test_cell_index_to_vec_index_size_4() {
    let pyra = Pyramide::init_full(4, false);
    let vec_idx = [4, 12, 13, 14, 20, 21, 22, 23, 24, 28, 29, 30, 31, 32, 33, 34];
    for (cell_idx, vec_idx) in std::iter::zip(0..16, vec_idx) {
        assert_eq!(pyra.cell_index_to_vec_index(cell_idx), Ok(vec_idx))
    }
}

#[test]
fn test_hash() {
    for i in 0..=65535 {
        let pyra = Pyramide::init_from_seed(4, i, false);
        assert_eq!(i, pyra.seed());
    }
}

#[test]
fn test_coups_theoriques() {
    // every centre of the nine cells, both directions, two or four orientations
    let pyra = Pyramide::init_full(3, false);
    let res = coups_theoriques(&pyra);
    assert_eq!(res.len(), 2 * 2 * 9);

    let pyra = Pyramide::init_full(3, true);
    let res = coups_theoriques(&pyra);
    assert_eq!(res.len(), 4 * 2 * 9);
}

#[test]
fn test_cherche_coups_possibles() {
    // _ _ F
    // _ T T F
    // F T T T F
    // seed : 230
    let pyra = Pyramide::init_from_seed(3, 230, false);
    let coups = coups_theoriques(&pyra);
    let res = cherche_coups_possibles(&pyra, &coups).expect("calculated");
    println!("{:?}", res);
    assert_eq!(res.len(), 4);
    assert!(res.contains(&Coup { mil: 2, orientation: Orientation::Vertical, dir: Direction::Haut }));
    assert!(res.contains(&Coup { mil: 2, orientation: Orientation::Horizontal, dir: Direction::Bas }));
    assert!(res.contains(&Coup { mil: 5, orientation: Orientation::Horizontal, dir: Direction::Haut }));
    assert!(res.contains(&Coup { mil: 7, orientation: Orientation::Horizontal, dir: Direction::Bas }));
    // _ _ F
    // _ T T T
    // T F T T T
    // seed : 478
    let pyra = Pyramide::init_from_seed(3, 478, true);
    let coups = &coups_theoriques(&pyra);
    let res = cherche_coups_possibles(&pyra, coups).expect("calculated");
    assert_eq!(res.len(), 4);
    assert!(res.contains(&Coup { mil: 1, orientation: Orientation::DiagonalD, dir: Direction::Haut }));
    assert!(res.contains(&Coup { mil: 2, orientation: Orientation::Vertical, dir: Direction::Haut }));
    assert!(res.contains(&Coup { mil: 3, orientation: Orientation::DiagonalG, dir: Direction::Haut }));
    assert!(res.contains(&Coup { mil: 6, orientation: Orientation::Horizontal, dir: Direction::Haut }));
}
