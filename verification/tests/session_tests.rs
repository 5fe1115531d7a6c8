use sudoku_core::board::Puzzle;
use sudoku_core::generate::Difficulty;
use sudoku_core::session::{EditError, Session};

/// A fully solved grid: row `r`, column `c` holds
/// `(r * 3 + r / 3 + c) % 9 + 1`.
fn solved_value(index: usize) -> u8 {
    let r = index / 9;
    let c = index % 9;
    ((r * 3 + r / 3 + c) % 9 + 1) as u8
}

fn empty_session() -> Session {
    Session::new(Puzzle::new())
}

#[test]
fn set_value_writes_and_clears_candidates() {
    let mut s = empty_session();
    s.toggle_candidate(7, 2).unwrap();
    s.toggle_candidate(7, 9).unwrap();
    assert!(s.cell_at(7).unwrap().has_candidate(2));
    s.set_value(7, 4).unwrap();
    let cell = s.cell_at(7).unwrap();
    assert_eq!(cell.value, Some(4));
    assert!(!cell.is_given);
    assert_eq!(cell.candidates, 0);
    // The neighbouring cell is untouched.
    assert_eq!(s.cell_at(8).unwrap().value, None);
}

#[test]
fn clear_cell_resets_value_and_candidates() {
    let mut s = empty_session();
    s.set_value(40, 9).unwrap();
    s.clear_cell(40).unwrap();
    let cell = s.cell_at(40).unwrap();
    assert_eq!(cell.value, None);
    assert!(!cell.is_given);
    assert_eq!(cell.candidates, 0);
}

#[test]
fn toggle_candidate_flips_only_that_digit() {
    let mut s = empty_session();
    s.toggle_candidate(10, 3).unwrap();
    s.toggle_candidate(10, 7).unwrap();
    let cell = s.cell_at(10).unwrap();
    for d in 1..=9 {
        assert_eq!(cell.has_candidate(d), d == 3 || d == 7);
    }
    assert_eq!(cell.value, None);
}

#[test]
fn toggle_candidate_twice_restores_the_set() {
    let mut s = empty_session();
    s.toggle_candidate(10, 3).unwrap();
    let before = s.cell_at(10).unwrap().candidates;
    s.toggle_candidate(10, 5).unwrap();
    s.toggle_candidate(10, 5).unwrap();
    assert_eq!(s.cell_at(10).unwrap().candidates, before);
    assert!(s.cell_at(10).unwrap().has_candidate(3));
    assert!(!s.cell_at(10).unwrap().has_candidate(5));
}

#[test]
fn edits_on_given_cells_are_rejected_and_change_nothing() {
    let mut s = Session::generate(Difficulty::Easy).expect("generation hit its attempt ceiling");
    let given = (0..81)
        .find(|&i| s.cell_at(i).unwrap().is_given)
        .expect("an easy puzzle has 41 given cells");
    let snapshot: Vec<_> = (0..81).map(|i| s.cell_at(i).unwrap()).collect();
    let valid_before = s.is_valid();
    let solved_before = s.is_solved();

    assert_eq!(s.set_value(given, 1), Err(EditError::CellIsGiven));
    assert_eq!(s.clear_cell(given), Err(EditError::CellIsGiven));
    assert_eq!(s.toggle_candidate(given, 5), Err(EditError::CellIsGiven));

    for i in 0..81 {
        assert_eq!(s.cell_at(i).unwrap(), snapshot[i]);
    }
    assert_eq!(s.is_valid(), valid_before);
    assert_eq!(s.is_solved(), solved_before);
}

#[test]
fn out_of_range_indices_are_rejected() {
    let mut s = empty_session();
    assert_eq!(s.set_value(81, 5), Err(EditError::IndexOutOfRange));
    assert_eq!(s.clear_cell(81), Err(EditError::IndexOutOfRange));
    assert_eq!(s.toggle_candidate(1000, 5), Err(EditError::IndexOutOfRange));
    assert!(s.cell_at(81).is_none());
    assert!(s.cell_at(usize::MAX).is_none());
    // Nothing changed.
    for i in 0..81 {
        assert_eq!(s.cell_at(i).unwrap().value, None);
    }
}

#[test]
fn filling_last_cell_solves_and_clearing_unsolves() {
    // Start from an all-editable empty board, enter a full solution but
    // for one cell: the session is still editing. Filling that last
    // cell with the only consistent value flips it to solved with a
    // recorded time; clearing the same cell flips it back and clears
    // the time.
    let mut s = empty_session();
    for i in 0..80 {
        s.set_value(i, solved_value(i)).unwrap();
        assert!(s.is_valid());
    }
    assert!(s.is_valid());
    assert!(!s.is_solved());
    assert!(s.solved_since().is_none());

    s.set_value(80, solved_value(80)).unwrap();
    assert!(s.is_valid());
    assert!(s.is_solved());
    assert!(s.solved_since().is_some());

    s.clear_cell(80).unwrap();
    assert!(s.is_valid());
    assert!(!s.is_solved());
    assert!(s.solved_since().is_none());
}

#[test]
fn solved_timestamp_is_recorded_once() {
    let mut s = empty_session();
    for i in 0..81 {
        s.set_value(i, solved_value(i)).unwrap();
    }
    assert!(s.is_solved());
    let first = s.solved_since().expect("solved board records a time");
    // A value-blind edit keeps the board solved and the time as it was.
    // (Candidate marks on a filled cell are never rendered, but the
    // mutator still runs its recompute.)
    s.toggle_candidate(0, 1).unwrap();
    assert!(s.is_solved());
    assert_eq!(s.solved_since(), Some(first));
}

#[test]
fn wrong_entry_invalidates_but_never_panics() {
    let mut s = empty_session();
    s.set_value(0, 5).unwrap();
    s.set_value(1, 5).unwrap();
    assert!(!s.is_valid());
    assert!(!s.is_solved());
    s.clear_cell(1).unwrap();
    assert!(s.is_valid());
}
