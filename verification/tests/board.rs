use minesweeper::matrix::{BoardError, Cell, Matrix, RevealOutcome};

fn layout(rows: usize, cols: usize, mines: &[(usize, usize)]) -> Vec<bool> {
    let mut lay = vec![false; rows * cols];
    for &(r, c) in mines {
        lay[r * cols + c] = true;
    }
    lay
}

fn board(rows: usize, cols: usize, mines: &[(usize, usize)]) -> Matrix {
    Matrix::from_layout(rows, cols, &layout(rows, cols, mines)).unwrap()
}

fn brute_adjacent(mines: &[(usize, usize)], rows: usize, cols: usize, r: usize, c: usize) -> u8 {
    let mut n = 0u8;
    for &(mr, mc) in mines {
        let dr = mr as i64 - r as i64;
        let dc = mc as i64 - c as i64;
        if (dr != 0 || dc != 0) && dr.abs() <= 1 && dc.abs() <= 1 && mr < rows && mc < cols {
            n += 1;
        }
    }
    n
}

#[test]
fn random_board_has_exact_mine_count() {
    let m = Matrix::new((5, 5, 7)).unwrap();
    assert_eq!(m.size(), (5, 5));
    assert_eq!(m.mine_count(), 7);
    let mut mines = 0;
    for r in 0..5 {
        for c in 0..5 {
            if m.cell_at(r, c) == Cell::Mine {
                mines += 1;
            }
            assert!(!m.is_revealed(r, c));
            assert!(!m.is_flagged(r, c));
        }
    }
    assert_eq!(mines, 7);
}

#[test]
fn random_board_adjacency_matches_brute_force() {
    let m = Matrix::new((6, 4, 5)).unwrap();
    let mut mines = Vec::new();
    for r in 0..6 {
        for c in 0..4 {
            if m.cell_at(r, c) == Cell::Mine {
                mines.push((r, c));
            }
        }
    }
    for r in 0..6 {
        for c in 0..4 {
            match m.cell_at(r, c) {
                Cell::Mine => {}
                Cell::Clear(n) => {
                    assert_eq!(n, brute_adjacent(&mines, 6, 4, r, c));
                }
            }
        }
    }
}

#[test]
fn invalid_configurations_are_rejected() {
    assert!(matches!(Matrix::new((0, 3, 0)), Err(BoardError::InvalidConfiguration)));
    assert!(matches!(Matrix::new((3, 0, 0)), Err(BoardError::InvalidConfiguration)));
    assert!(matches!(Matrix::new((2, 2, 4)), Err(BoardError::InvalidConfiguration)));
    assert!(matches!(Matrix::new((1, 1, 1)), Err(BoardError::InvalidConfiguration)));
    assert!(Matrix::new((2, 2, 3)).is_ok());
    assert!(Matrix::new((1, 1, 0)).is_ok());
    assert!(matches!(
        Matrix::from_layout(2, 2, &vec![true; 4]),
        Err(BoardError::InvalidConfiguration)
    ));
    assert!(matches!(
        Matrix::from_layout(2, 2, &vec![false; 3]),
        Err(BoardError::InvalidConfiguration)
    ));
}

#[test]
fn one_by_one_board_wins_on_first_reveal() {
    let mut m = board(1, 1, &[]);
    assert_eq!(m.update_state(0, 0), RevealOutcome::Won);
    assert!(m.is_revealed(0, 0));
}

#[test]
fn center_mine_gives_all_neighbors_count_one() {
    let mut m = board(3, 3, &[(1, 1)]);
    for r in 0..3 {
        for c in 0..3 {
            if (r, c) == (1, 1) {
                assert_eq!(m.cell_at(r, c), Cell::Mine);
            } else {
                assert_eq!(m.cell_at(r, c), Cell::Clear(1));
            }
        }
    }
    // No cascade: the pressed square has count 1, so only it is revealed.
    assert_eq!(m.update_state(0, 0), RevealOutcome::Revealed);
    for r in 0..3 {
        for c in 0..3 {
            assert_eq!(m.is_revealed(r, c), (r, c) == (0, 0));
        }
    }
}

#[test]
fn revealing_a_mine_changes_no_other_square() {
    let mut m = board(3, 3, &[(1, 1)]);
    m.update_state(0, 0);
    assert_eq!(m.update_state(1, 1), RevealOutcome::HitMine);
    assert!(m.is_revealed(1, 1));
    for r in 0..3 {
        for c in 0..3 {
            let expect = (r, c) == (1, 1) || (r, c) == (0, 0);
            assert_eq!(m.is_revealed(r, c), expect);
        }
    }
}

#[test]
fn flood_fill_reveals_region_and_boundary() {
    // One mine in the far corner: every other square is connected to (0, 0)
    // through zero-count squares, so one reveal clears the board.
    let mut m = board(4, 4, &[(3, 3)]);
    assert_eq!(m.update_state(0, 0), RevealOutcome::Won);
    for r in 0..4 {
        for c in 0..4 {
            assert_eq!(m.is_revealed(r, c), (r, c) != (3, 3));
        }
    }
    assert_eq!(m.revealed_count(), 15);
    assert!(m.is_finished());
}

#[test]
fn flood_fill_stops_at_positive_counts() {
    // A wall of mines splits the 3x5 board; revealing the left edge must not
    // leak past the wall.
    let mut m = board(3, 5, &[(0, 2), (1, 2), (2, 2)]);
    assert_eq!(m.update_state(0, 0), RevealOutcome::Revealed);
    for r in 0..3 {
        for c in 0..5 {
            let expect = c <= 1;
            assert_eq!(m.is_revealed(r, c), expect, "at {:?}", (r, c));
        }
    }
}

#[test]
fn revealing_twice_is_a_no_op() {
    let mut m = board(2, 2, &[(1, 1)]);
    assert_eq!(m.update_state(0, 0), RevealOutcome::Revealed);
    assert_eq!(m.update_state(0, 0), RevealOutcome::NoOp);
}

#[test]
fn win_exactly_when_all_clear_squares_revealed() {
    let mut m = board(2, 2, &[(0, 0)]);
    assert_eq!(m.update_state(0, 1), RevealOutcome::Revealed);
    assert_eq!(m.update_state(1, 0), RevealOutcome::Revealed);
    assert_eq!(m.update_state(1, 1), RevealOutcome::Won);
    assert_eq!(m.revealed_count(), 2 * 2 - 1);
}

#[test]
fn flag_toggles_only_on_unrevealed_squares() {
    let mut m = board(2, 2, &[(1, 1)]);
    m.toggle_flag(0, 0);
    assert!(m.is_flagged(0, 0));
    m.toggle_flag(0, 0);
    assert!(!m.is_flagged(0, 0));
    m.update_state(0, 0);
    m.toggle_flag(0, 0);
    assert!(!m.is_flagged(0, 0));
}

#[test]
fn flag_does_not_block_reveal() {
    let mut flagged = board(3, 3, &[(1, 1)]);
    let mut plain = board(3, 3, &[(1, 1)]);
    flagged.toggle_flag(0, 0);
    assert!(flagged.is_flagged(0, 0));
    let out_flagged = flagged.update_state(0, 0);
    let out_plain = plain.update_state(0, 0);
    assert_eq!(out_flagged, out_plain);
    assert!(flagged.is_revealed(0, 0));
    assert!(!flagged.is_flagged(0, 0));
    for r in 0..3 {
        for c in 0..3 {
            assert_eq!(flagged.is_revealed(r, c), plain.is_revealed(r, c));
        }
    }
}

#[test]
fn flood_fill_clears_swept_flags() {
    let mut m = board(4, 4, &[(3, 3)]);
    m.toggle_flag(2, 2);
    assert!(m.is_flagged(2, 2));
    assert_eq!(m.update_state(0, 0), RevealOutcome::Won);
    assert!(m.is_revealed(2, 2));
    assert!(!m.is_flagged(2, 2));
}
