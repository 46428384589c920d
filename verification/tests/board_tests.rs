use sudoku::board::{Board, Solver};
use sudoku::cell::ErrorKind;

/// The solved grid behind a generated board, read through the solver.
fn solved_grid(k: usize) -> Solver {
    Solver::new(Board::new(k))
}

fn assert_group_complete(values: &[usize]) {
    assert_eq!(values.len(), 9);
    for digit in 1..=9usize {
        assert!(
            values.contains(&digit),
            "digit {} missing from group {:?}",
            digit,
            values
        );
    }
}

fn assert_solved_grid_complete(s: &Solver) {
    for row in 1..=9usize {
        let vals: Vec<usize> = (1..=9).map(|col| s.solved_value_at(row, col)).collect();
        assert_group_complete(&vals);
    }
    for col in 1..=9usize {
        let vals: Vec<usize> = (1..=9).map(|row| s.solved_value_at(row, col)).collect();
        assert_group_complete(&vals);
    }
    for b in 0..9usize {
        let base_row = 3 * (b / 3) + 1;
        let base_col = 3 * (b % 3) + 1;
        let mut vals: Vec<usize> = Vec::new();
        for dr in 0..3 {
            for dc in 0..3 {
                vals.push(s.solved_value_at(base_row + dr, base_col + dc));
            }
        }
        assert_group_complete(&vals);
    }
}

#[test]
fn generated_grid_is_complete() {
    let s = solved_grid(0);
    assert_solved_grid_complete(&s);
    // with no cell removed, the active grid already matches
    for row in 1..=9usize {
        for col in 1..=9usize {
            assert_eq!(s.value_at(row, col), s.solved_value_at(row, col));
        }
    }
}

#[test]
fn regeneration_stays_complete() {
    // two runs draw different random sequences; each must be complete
    let s1 = solved_grid(32);
    let s2 = solved_grid(32);
    assert_solved_grid_complete(&s1);
    assert_solved_grid_complete(&s2);
}

#[test]
fn generate_returns_for_every_difficulty() {
    for k in [0usize, 16, 32, 48, 64, 81] {
        let b = Board::new(k);
        assert_eq!(b.is_solved(), k == 0);
    }
}

#[test]
fn clue_count_is_exact() {
    for k in [0usize, 1, 16, 32, 48, 64, 80, 81] {
        let s = solved_grid(k);
        let mut filled = 0usize;
        for row in 1..=9usize {
            for col in 1..=9usize {
                if s.value_at(row, col) != 0 {
                    filled += 1;
                }
            }
        }
        assert_eq!(filled, 81 - k, "k = {}", k);
    }
}

#[test]
fn clues_are_exactly_the_filled_cells() {
    let s = solved_grid(32);
    let mut clues = 0usize;
    for row in 1..=9usize {
        for col in 1..=9usize {
            assert_eq!(s.is_clue(row, col), s.value_at(row, col) != 0);
            if s.is_clue(row, col) {
                clues += 1;
                assert_eq!(s.value_at(row, col), s.solved_value_at(row, col));
            }
        }
    }
    assert_eq!(clues, 81 - 32);
}

#[test]
fn fill_rejects_out_of_bounds() {
    let mut s = solved_grid(32);
    assert_eq!(s.fill_cell(0, 5, 3).unwrap_err().kind(), ErrorKind::OutOfBounds);
    assert_eq!(s.fill_cell(10, 1, 1).unwrap_err().kind(), ErrorKind::OutOfBounds);
    assert_eq!(s.fill_cell(5, 5, 10).unwrap_err().kind(), ErrorKind::OutOfBounds);
}

#[test]
fn fill_protects_every_clue() {
    // with no cell removed every position is a clue
    let mut s = solved_grid(0);
    for row in 1..=9usize {
        for col in 1..=9usize {
            let before = s.value_at(row, col);
            for v in 0..=9usize {
                let e = s.fill_cell(row, col, v).unwrap_err();
                assert_eq!(e.kind(), ErrorKind::ClueOverwrite);
            }
            assert_eq!(s.value_at(row, col), before);
        }
    }
}

#[test]
fn fill_writes_and_clears_open_cells() {
    // with every cell removed there is no clue at all
    let mut s = solved_grid(81);
    assert_eq!(s.value_at(4, 6), 0);
    s.fill_cell(4, 6, 7).unwrap();
    assert_eq!(s.value_at(4, 6), 7);
    s.fill_cell(4, 6, 2).unwrap();
    assert_eq!(s.value_at(4, 6), 2);
    s.fill_cell(4, 6, 0).unwrap();
    assert_eq!(s.value_at(4, 6), 0);
}

#[test]
fn solved_detection_full_round() {
    let mut s = solved_grid(32);
    assert!(!s.is_solved());
    for row in 1..=9usize {
        for col in 1..=9usize {
            if !s.is_clue(row, col) {
                let v = s.solved_value_at(row, col);
                s.fill_cell(row, col, v).unwrap();
            }
        }
    }
    assert!(s.is_solved());

    // flip one open cell to a wrong value: no longer solved
    let mut flipped = false;
    'outer: for row in 1..=9usize {
        for col in 1..=9usize {
            if !s.is_clue(row, col) {
                let right = s.solved_value_at(row, col);
                let wrong = right % 9 + 1;
                assert_ne!(wrong, right);
                s.fill_cell(row, col, wrong).unwrap();
                flipped = true;
                break 'outer;
            }
        }
    }
    assert!(flipped);
    assert!(!s.is_solved());
}

#[test]
fn board_is_solved_tracks_removal() {
    let full = Board::new(0);
    assert!(full.is_solved());
    let blanked = Board::new(32);
    assert!(!blanked.is_solved());
}

#[test]
fn solver_starts_solved_only_without_removal() {
    let s0 = solved_grid(0);
    assert!(s0.is_solved());
    let s32 = solved_grid(32);
    assert!(!s32.is_solved());
}
