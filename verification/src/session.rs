//! The puzzle session: owns one board, exposes the only mutators, and
//! keeps the derived validity / solved / solved-since state, recomputed
//! from the board on every mutation.

use crate::board::{
    agrees_on_filled, board_solved, board_valid, board_wf, empty_cell, lemma_mask_toggle_flips,
    lemma_num_filled_full, mask_toggled, num_filled, Cell, Puzzle,
};
use crate::generate::{removal_count, Difficulty};
use vstd::prelude::*;

verus! {

/// Why an edit was rejected.
#[derive(Clone, Copy, Debug, PartialEq, Eq)]
pub enum EditError {
    /// The linear index lies outside 0..=80.
    IndexOutOfRange,
    /// The cell is fixed by the puzzle and not editable.
    CellIsGiven,
}

/// Relies on `std::time::SystemTime::now`: the current time, converted
/// to whole milliseconds since the Unix epoch (zero if the clock reads
/// before the epoch). The value depends on the clock, so nothing is
/// assumed about it.
#[verifier::external_body]
fn now_millis() -> u64 {
    match std::time::SystemTime::now().duration_since(std::time::UNIX_EPOCH) {
        Ok(d) => d.as_millis() as u64,
        Err(_) => 0,
    }
}

/// One board plus the state derived from it. The cached flags are
/// never sources of truth: every mutation recomputes them from the
/// board before returning.
pub struct Session {
    pub puzzle: Puzzle,
    pub valid: bool,
    pub solved: bool,
    pub solved_since: Option<u64>,
}

impl Session {
    /// The board the session owns, as its sequence of cells.
    pub open spec fn board(&self) -> Seq<Cell> {
        self.puzzle.cells@
    }

    /// Session invariant: the board is well formed, both cached flags
    /// agree with it, and the timestamp is recorded exactly while the
    /// board is solved.
    pub open spec fn wf(&self) -> bool {
        &&& board_wf(self.board())
        &&& self.valid == board_valid(self.board())
        &&& self.solved == board_solved(self.board())
        &&& (self.solved_since is Some <==> self.solved)
    }

    /// Recompute the cached flags from the board; record the time on a
    /// fresh transition into the solved state, keep it while the board
    /// stays solved, and clear it as soon as the board is not solved.
    fn refresh(&mut self)
        requires
            board_wf(old(self).board()),
        ensures
            final(self).wf(),
            final(self).board() == old(self).board(),
            board_solved(old(self).board()) && old(self).solved_since is Some ==> final(self).solved_since == old(self).solved_since,
    {
        self.valid = self.puzzle.is_valid();
        self.solved = self.puzzle.is_solved();
        if self.solved {
            if self.solved_since.is_none() {
                self.solved_since = Some(now_millis());
            }
        } else {
            self.solved_since = None;
        }
    }

    /// Wrap a board in a fresh session, computing the derived state
    /// from it.
    pub fn new(puzzle: Puzzle) -> (s: Session)
        requires
            puzzle.wf(),
        ensures
            s.wf(),
            s.board() == puzzle.cells@,
    {
        let valid = puzzle.is_valid();
        let solved = puzzle.is_solved();
        let solved_since = if solved {
            Some(now_millis())
        } else {
            None
        };
        Session { puzzle, valid, solved, solved_since }
    }

    /// Build a new puzzle of the chosen difficulty and start a session
    /// on it. The session starts in the editing state: its board has
    /// exactly `81 - removal_count(difficulty)` filled cells, a cell is
    /// filled exactly when it is given, no cell carries candidate
    /// marks, the board is valid, not solved, and the removal image of
    /// a complete solved board, and no solved time is recorded. Reports
    /// nothing only when generation gave up at its attempt ceiling.
    pub fn generate(difficulty: Difficulty) -> (r: Option<Session>)
        ensures
            r matches Some(s) ==> {
                &&& s.wf()
                &&& board_valid(s.board())
                &&& !board_solved(s.board())
                &&& num_filled(s.board()) == 81 - removal_count(difficulty)
                &&& forall|j: int|
                    0 <= j < 81 ==> (((#[trigger] s.board()[j]).value is Some)
                        == s.board()[j].is_given)
                &&& forall|j: int| 0 <= j < 81 ==> (#[trigger] s.board()[j]).candidates == 0
                &&& exists|full: Seq<Cell>|
                    board_wf(full) && #[trigger] board_solved(full) && agrees_on_filled(
                        s.board(),
                        full,
                    )
                &&& s.solved_since is None
            },
    {
        match Puzzle::random(difficulty) {
            Some(p) => {
                proof {
                    if board_solved(p.cells@) {
                        lemma_num_filled_full(p.cells@);
                    }
                }
                let ghost board = p.cells@;
                let s = Session::new(p);
                proof {
                    let full = choose|full: Seq<Cell>|
                        board_wf(full) && #[trigger] board_solved(full) && agrees_on_filled(
                            board,
                            full,
                        );
                    assert(agrees_on_filled(s.board(), full));
                }
                Some(s)
            },
            None => None,
        }
    }

    /// Read-only snapshot of the cell at `index`, for drawing; nothing
    /// for an index outside 0..=80.
    pub fn cell_at(&self, index: usize) -> (r: Option<Cell>)
        requires
            self.wf(),
        ensures
            index < 81 ==> r == Some(self.board()[index as int]),
            index >= 81 ==> r is None,
    {
        if index < 81 {
            Some(self.puzzle.cells[index])
        } else {
            None
        }
    }

    /// Whether all 27 groups of the board satisfy the uniqueness rule.
    pub fn is_valid(&self) -> (r: bool)
        requires
            self.wf(),
        ensures
            r == board_valid(self.board()),
    {
        self.valid
    }

    /// Whether the board is valid and fully filled.
    pub fn is_solved(&self) -> (r: bool)
        requires
            self.wf(),
        ensures
            r == board_solved(self.board()),
    {
        self.solved
    }

    /// When the board last became solved, in milliseconds since the
    /// Unix epoch; recorded exactly while the board is solved.
    pub fn solved_since(&self) -> (r: Option<u64>)
        requires
            self.wf(),
        ensures
            r == self.solved_since,
            r is Some <==> board_solved(self.board()),
    {
        self.solved_since
    }

    /// Set the value of the editable cell at `index` to `digit` and
    /// clear that cell's candidate marks. Rejected exactly when the
    /// index is out of range or the cell is given; a rejected call
    /// leaves the session unchanged.
    pub fn set_value(&mut self, index: usize, digit: u8) -> (r: Result<(), EditError>)
        requires
            old(self).wf(),
            1 <= digit <= 9,
        ensures
            final(self).wf(),
            index >= 81 ==> r == Err::<(), EditError>(EditError::IndexOutOfRange) && *final(self) == *old(self),
            index < 81 && old(self).board()[index as int].is_given ==> r == Err::<(), EditError>(
                EditError::CellIsGiven,
            ) && *final(self) == *old(self),
            index < 81 && !old(self).board()[index as int].is_given ==> r == Ok::<(), EditError>(())
                && final(self).board() == old(self).board().update(
                index as int,
                (Cell { value: Some(digit), is_given: false, candidates: 0 }),
            ),
            board_solved(final(self).board()) && board_solved(old(self).board()) ==> final(self).solved_since == old(self).solved_since,
    {
        if index >= 81 {
            return Err(EditError::IndexOutOfRange);
        }
        if self.puzzle.cells[index].is_given {
            return Err(EditError::CellIsGiven);
        }
        self.puzzle.cells.set(index, Cell { value: Some(digit), is_given: false, candidates: 0 });
        self.refresh();
        Ok(())
    }

    /// Clear the value and the candidate marks of the editable cell at
    /// `index`. Rejected exactly when the index is out of range or the
    /// cell is given; a rejected call leaves the session unchanged.
    pub fn clear_cell(&mut self, index: usize) -> (r: Result<(), EditError>)
        requires
            old(self).wf(),
        ensures
            final(self).wf(),
            index >= 81 ==> r == Err::<(), EditError>(EditError::IndexOutOfRange) && *final(self) == *old(self),
            index < 81 && old(self).board()[index as int].is_given ==> r == Err::<(), EditError>(
                EditError::CellIsGiven,
            ) && *final(self) == *old(self),
            index < 81 && !old(self).board()[index as int].is_given ==> r == Ok::<(), EditError>(())
                && final(self).board() == old(self).board().update(index as int, empty_cell()),
            board_solved(final(self).board()) && board_solved(old(self).board()) ==> final(self).solved_since == old(self).solved_since,
    {
        if index >= 81 {
            return Err(EditError::IndexOutOfRange);
        }
        if self.puzzle.cells[index].is_given {
            return Err(EditError::CellIsGiven);
        }
        self.puzzle.cells.set(index, Cell { value: None, is_given: false, candidates: 0 });
        self.refresh();
        Ok(())
    }

    /// Flip the candidate mark for `digit` in the editable cell at
    /// `index`, leaving its value untouched. Rejected exactly when the
    /// index is out of range or the cell is given; a rejected call
    /// leaves the session unchanged.
    pub fn toggle_candidate(&mut self, index: usize, digit: u8) -> (r: Result<(), EditError>)
        requires
            old(self).wf(),
            1 <= digit <= 9,
        ensures
            final(self).wf(),
            index >= 81 ==> r == Err::<(), EditError>(EditError::IndexOutOfRange) && *final(self) == *old(self),
            index < 81 && old(self).board()[index as int].is_given ==> r == Err::<(), EditError>(
                EditError::CellIsGiven,
            ) && *final(self) == *old(self),
            index < 81 && !old(self).board()[index as int].is_given ==> r == Ok::<(), EditError>(())
                && final(self).board() == old(self).board().update(
                index as int,
                (Cell {
                    value: old(self).board()[index as int].value,
                    is_given: false,
                    candidates: mask_toggled(old(self).board()[index as int].candidates, digit),
                }),
            ),
            board_solved(final(self).board()) && board_solved(old(self).board()) ==> final(self).solved_since == old(self).solved_since,
    {
        if index >= 81 {
            return Err(EditError::IndexOutOfRange);
        }
        let c = self.puzzle.cells[index];
        if c.is_given {
            return Err(EditError::CellIsGiven);
        }
        let shift: u16 = (digit - 1) as u16;
        let mask: u16 = c.candidates ^ (1u16 << shift);
        proof {
            lemma_mask_toggle_flips(c.candidates, digit);
            assert(mask == mask_toggled(c.candidates, digit));
        }
        self.puzzle.cells.set(index, Cell { value: c.value, is_given: false, candidates: mask });
        self.refresh();
        Ok(())
    }
}

/// Toggling the same candidate of the same editable cell twice in a
/// row restores the board exactly: the second edit undoes the first,
/// so the candidate set returns to its original state.
pub proof fn lemma_toggle_candidate_involutive(s: Seq<Cell>, index: int, digit: u8)
    requires
        0 <= index < s.len(),
        !s[index].is_given,
        1 <= digit <= 9,
    ensures
        ({
            let c = s[index];
            let once = s.update(
                index,
                (Cell {
                    value: c.value,
                    is_given: false,
                    candidates: mask_toggled(c.candidates, digit),
                }),
            );
            let c2 = once[index];
            once.update(
                index,
                (Cell {
                    value: c2.value,
                    is_given: false,
                    candidates: mask_toggled(c2.candidates, digit),
                }),
            ) == s
        }),
{
    let c = s[index];
    crate::board::lemma_mask_toggle_twice(c.candidates, digit);
    let once = s.update(
        index,
        (Cell { value: c.value, is_given: false, candidates: mask_toggled(c.candidates, digit) }),
    );
    let c2 = once[index];
    assert(once.update(
        index,
        (Cell { value: c2.value, is_given: false, candidates: mask_toggled(c2.candidates, digit) }),
    ) =~= s);
}

} // verus!
