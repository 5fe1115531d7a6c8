use sudoku_core::generate::{cells_to_remove, Difficulty};
use sudoku_core::board::Puzzle;
use sudoku_core::session::Session;

#[test]
fn removal_table_is_40_50_60() {
    assert_eq!(cells_to_remove(Difficulty::Easy), 40);
    assert_eq!(cells_to_remove(Difficulty::Medium), 50);
    assert_eq!(cells_to_remove(Difficulty::Hard), 60);
}

fn check_generated(difficulty: Difficulty, expected_filled: usize) {
    let session = Session::generate(difficulty).expect("generation hit its attempt ceiling");
    let mut filled = 0;
    for i in 0..81 {
        let cell = session.cell_at(i).unwrap();
        assert_eq!(
            cell.value.is_some(),
            cell.is_given,
            "cell {} filled and given flags disagree",
            i
        );
        assert_eq!(cell.candidates, 0, "cell {} carries candidate marks", i);
        if cell.value.is_some() {
            filled += 1;
            let d = cell.value.unwrap();
            assert!((1..=9).contains(&d));
        }
    }
    assert_eq!(filled, expected_filled);
    assert!(session.is_valid());
    assert!(!session.is_solved());
    assert!(session.solved_since().is_none());
}

#[test]
fn generate_easy_leaves_41_givens() {
    check_generated(Difficulty::Easy, 81 - 40);
}

#[test]
fn generate_medium_leaves_31_givens() {
    check_generated(Difficulty::Medium, 81 - 50);
}

#[test]
fn generate_hard_leaves_21_givens() {
    check_generated(Difficulty::Hard, 81 - 60);
}

#[test]
fn random_puzzle_is_valid_with_exact_removal() {
    let p = Puzzle::random(Difficulty::Hard).expect("generation hit its attempt ceiling");
    assert!(p.is_valid());
    let filled = p.cells.iter().filter(|c| c.value.is_some()).count();
    assert_eq!(filled, 21);
    for c in &p.cells {
        assert_eq!(c.value.is_some(), c.is_given);
    }
}

#[test]
fn generation_is_randomized() {
    // Two fresh puzzles agreeing on all 81 cells would mean the shuffle
    // handed its input back unchanged and generation were deterministic.
    let a = Session::generate(Difficulty::Easy).expect("generation hit its attempt ceiling");
    let b = Session::generate(Difficulty::Easy).expect("generation hit its attempt ceiling");
    let same = (0..81).all(|i| a.cell_at(i) == b.cell_at(i));
    assert!(!same);
}
