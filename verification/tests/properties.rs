use singlenum::enums::{Container, Progress, SolverError};
use singlenum::table::Table;

/// The grid of the last-cell scenarios: cell 18 blank, all else solved.
fn nearly_solved() -> Vec<usize> {
    [
        8, 5, 9, 6, 1, 2, 4, 3, 7, 7, 2, 3, 8, 5, 4, 1, 6, 9, 0, 6, 4, 3, 7, 9, 5, 2, 8, 9, 8, 6,
        1, 4, 7, 3, 5, 2, 3, 7, 5, 2, 6, 8, 9, 1, 4, 2, 4, 1, 5, 9, 3, 7, 8, 6, 4, 3, 2, 9, 8, 1,
        6, 7, 5, 6, 1, 7, 4, 2, 5, 8, 9, 3, 5, 9, 8, 7, 3, 6, 2, 4, 1,
    ]
    .to_vec()
}

/// The same grid fully solved (cell 18 holds its 1).
fn solved() -> Vec<usize> {
    let mut v = nearly_solved();
    v[18] = 1;
    v
}

/// A real puzzle with 51 blanks.
fn open_puzzle() -> Vec<usize> {
    [
        3, 0, 0, 0, 0, 1, 0, 0, 0, 0, 7, 1, 9, 6, 0, 0, 2, 4, 0, 0, 0, 5, 0, 0, 0, 0, 1, 0, 2, 0,
        8, 4, 0, 7, 0, 0, 0, 0, 0, 6, 0, 9, 0, 0, 0, 0, 0, 5, 0, 1, 2, 0, 9, 0, 9, 0, 0, 0, 0, 6,
        0, 0, 0, 2, 6, 0, 0, 9, 7, 1, 5, 0, 0, 0, 0, 1, 0, 0, 0, 0, 2,
    ]
    .to_vec()
}

/// A fully solved grid is reported `Solved` on the very next progress
/// check, on the first pass.
#[test]
fn solved_grid_reports_solved_at_once() {
    let mut table = Table::new(solved(), 500);
    match table.complete() {
        Progress::Solved(summary) => {
            assert_eq!(summary.iterations, 1);
            assert_eq!(summary.snapshots_taken, 0);
            assert_eq!(summary.snapshot_rollbacks, 0);
        },
        _ => panic!("expected Solved"),
    }
}

/// An unsolved grid within budget is reported `InProgress` with the pass
/// count.
#[test]
fn unsolved_grid_reports_in_progress() {
    let mut table = Table::new(nearly_solved(), 5);
    match table.complete() {
        Progress::InProgress(iteration) => assert_eq!(iteration, 1),
        _ => panic!("expected InProgress"),
    }
}

/// A spent budget is reported `LimitReached`, whatever the grid holds.
#[test]
fn spent_budget_reports_limit_reached() {
    let mut table = Table::new(nearly_solved(), 1);
    match table.complete() {
        Progress::LimitReached(summary) => assert_eq!(summary.iterations, 1),
        _ => panic!("expected LimitReached"),
    }
}

/// A filled grid that breaks the rules is not `Solved`.
#[test]
fn invalid_full_grid_is_not_solved() {
    let mut bad = solved();
    // Repeat the 5 of cell 1 at cell 0: row 0 now holds two 5s.
    bad[0] = 5;
    let mut table = Table::new(bad, 1);
    match table.complete() {
        Progress::LimitReached(_) => {},
        _ => panic!("expected LimitReached"),
    }
}

/// Candidate narrowing on the nearly solved grid pins cell 18 to its one
/// missing digit.
#[test]
fn update_narrows_last_blank_to_single_candidate() {
    let mut table = Table::new(nearly_solved(), 5);
    table.update().unwrap();
    assert_eq!(table.squares[18].potentials, vec![1]);
}

/// Candidate narrowing on an open puzzle: cell 27 can hold exactly 1 and
/// 6, in increasing order.
#[test]
fn update_computes_box_candidates() {
    let mut table = Table::new(open_puzzle(), 5);
    table.update().unwrap();
    assert_eq!(table.squares[27].potentials, vec![1, 6]);
}

/// Updating twice with no assignment in between leaves every candidate
/// list exactly as the first pass computed it.
#[test]
fn update_is_idempotent() {
    let mut table = Table::new(open_puzzle(), 5);
    table.update().unwrap();
    let first: Vec<Vec<usize>> = table.squares.iter().map(|s| s.potentials.clone()).collect();
    table.update().unwrap();
    let second: Vec<Vec<usize>> = table.squares.iter().map(|s| s.potentials.clone()).collect();
    assert_eq!(first, second);
}

/// A qualified guess records itself in the guessed cell's history, and a
/// rollback restores the grid while keeping the failed value excluded.
#[test]
fn guess_then_rollback_keeps_history() {
    let mut table = Table::new(nearly_solved(), 10);
    table.update().unwrap();
    let guessed = table.qualified_guess().unwrap();
    assert!(guessed);
    assert_eq!(table.squares[18].value, 1_usize);
    assert_eq!(table.squares[18].history, vec![1]);

    table.snapshot_rollback().unwrap();
    assert_eq!(table.squares[18].value, 0_usize);
    assert_eq!(table.squares[18].history, vec![1]);
}

/// Rolling back with no snapshot stored is the search-exhausted fault.
#[test]
fn rollback_without_snapshot_fails() {
    let mut table = Table::new(nearly_solved(), 10);
    assert_eq!(table.snapshot_rollback(), Err(SolverError::EmptySnapshotStack));
}

/// A group demanding a last-cell assignment while holding no empty square
/// is the rule-engine inconsistency fault, named with the group and digit.
#[test]
fn one_left_without_empty_cell_fails() {
    // Row 0 is full but holds two 3s, so one digit (7) is never taken.
    let mut config = vec![0; 81];
    let row0 = [8, 5, 9, 6, 1, 2, 4, 3, 3];
    for (k, v) in row0.iter().enumerate() {
        config[k] = *v;
    }
    let mut table = Table::new(config, 5);
    table.update_line().unwrap();
    assert_eq!(
        table.engine_line_one_left(),
        Err(SolverError::NoEmptyCell(Container::LINE, 0, 7))
    );
}

/// The solver loop finishes a one-blank grid.
#[test]
fn solve_fills_last_blank() {
    let mut table = Table::new(nearly_solved(), 10);
    match table.solve().unwrap() {
        Progress::Solved(_) => {},
        _ => panic!("expected Solved"),
    }
    assert_eq!(table.squares[18].value, 1_usize);
}

/// The solver loop finishes a real puzzle within its budget, and every
/// cell ends with a value.
#[test]
fn solve_finishes_open_puzzle() {
    let mut table = Table::new(open_puzzle(), 200000);
    match table.solve().unwrap() {
        Progress::Solved(_) => {},
        other => panic!("expected Solved, got {:?}", other),
    }
    for square in table.squares.iter() {
        assert!(1 <= square.value && square.value <= 9);
    }
}
