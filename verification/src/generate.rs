//! The generator: a randomized constructive fill of the whole grid with
//! whole-grid retry, followed by the difficulty-driven removal policy.

use crate::board::{
    agrees_on_filled, board_solved, board_valid, board_wf, empty_cell, lemma_clear_preserves_valid,
    lemma_empty_board_valid_not_solved, lemma_num_filled_full, lemma_num_filled_update, num_filled,
    Cell, Puzzle,
};
use rand::seq::SliceRandom;
use vstd::prelude::*;

verus! {

/// A named density tier: how many cells the removal policy clears.
#[derive(Clone, Copy, Debug, PartialEq, Eq)]
pub enum Difficulty {
    Easy,
    Medium,
    Hard,
}

/// The removal table as a mathematical function.
pub open spec fn removal_count(difficulty: Difficulty) -> int {
    match difficulty {
        Difficulty::Easy => 40,
        Difficulty::Medium => 50,
        Difficulty::Hard => 60,
    }
}

/// The difficulty table: Easy clears exactly 40 cells, Medium 50,
/// Hard 60 (out of the 81 cells of the grid).
pub fn cells_to_remove(difficulty: Difficulty) -> (r: usize)
    ensures
        r == removal_count(difficulty),
{
    match difficulty {
        Difficulty::Easy => 40,
        Difficulty::Medium => 50,
        Difficulty::Hard => 60,
    }
}

/// Ceiling on whole-grid fill attempts before generation reports
/// failure instead of retrying forever.
pub const MAX_ATTEMPTS: usize = 10000;

/// Relies on rand's `SliceRandom::shuffle`, fed from `rand::thread_rng`:
/// a Fisher-Yates pass that permutes the slice in place by swapping
/// entries, so the multiset of entries is unchanged. Nothing is assumed
/// about the order that comes back.
#[verifier::external_body]
fn shuffle_bytes(v: &mut Vec<u8>)
    ensures
        final(v)@.to_multiset() == old(v)@.to_multiset(),
{
    v.shuffle(&mut rand::thread_rng());
}

/// What any permutation keeps: the length, the stock of entries, and
/// distinctness.
proof fn lemma_permutation_facts(s1: Seq<u8>, s2: Seq<u8>)
    requires
        s1.to_multiset() == s2.to_multiset(),
    ensures
        s2.len() == s1.len(),
        forall|k: int| 0 <= k < s2.len() ==> s1.contains(#[trigger] s2[k]),
        s1.no_duplicates() ==> s2.no_duplicates(),
{
    broadcast use vstd::seq_lib::group_to_multiset_ensures;

    assert(s1.len() == s1.to_multiset().len());
    assert(s2.len() == s2.to_multiset().len());
    assert forall|k: int| 0 <= k < s2.len() implies s1.contains(#[trigger] s2[k]) by {
        assert(s2.contains(s2[k]));
        assert(s2.to_multiset().count(s2[k]) > 0);
    }
    if s1.no_duplicates() {
        s1.lemma_multiset_has_no_duplicates();
        s2.lemma_multiset_has_no_duplicates_conv();
    }
}

/// The digits 1..=9 in ascending order.
fn digit_vec() -> (v: Vec<u8>)
    ensures
        v@.len() == 9,
        forall|k: int| 0 <= k < 9 ==> #[trigger] v@[k] == k + 1,
{
    let mut v: Vec<u8> = Vec::new();
    let mut d: u8 = 1;
    while d <= 9
        invariant
            1 <= d <= 10,
            v@.len() == d - 1,
            forall|k: int| 0 <= k < d - 1 ==> #[trigger] v@[k] == k + 1,
        decreases 10 - d,
    {
        v.push(d);
        d += 1;
    }
    v
}

/// The linear indices 0..=80 in ascending order.
fn index_vec() -> (v: Vec<u8>)
    ensures
        v@.len() == 81,
        forall|k: int| 0 <= k < 81 ==> #[trigger] v@[k] == k,
{
    let mut v: Vec<u8> = Vec::new();
    let mut i: u8 = 0;
    while i < 81
        invariant
            i <= 81,
            v@.len() == i,
            forall|k: int| 0 <= k < i ==> #[trigger] v@[k] == k,
        decreases 81 - i,
    {
        v.push(i);
        i += 1;
    }
    v
}

/// Index `j` occurs among the first `m` entries of `idxs`.
spec fn among_first(idxs: Seq<u8>, m: int, j: int) -> bool {
    exists|t: int| 0 <= t < m && #[trigger] idxs[t] == j
}

/// The board `s` with `d` placed in cell `i` as a given digit, the
/// candidate marks cleared.
pub open spec fn placed_board(s: Seq<Cell>, i: int, d: u8) -> Seq<Cell> {
    s.update(i, (Cell { value: Some(d), is_given: true, candidates: 0 }))
}

/// Try the candidate digits in the order given as the value of cell
/// `i`, placing each as a given cell, and keep the first one that
/// leaves the whole board valid. Placement succeeds exactly when some
/// digit of the list keeps the board valid, and the cell then holds
/// the first such digit; when none does, the cell is left holding the
/// last digit tried and the attempt reports failure.
fn place_first_valid(p: &mut Puzzle, i: usize, digits: &Vec<u8>) -> (placed: bool)
    requires
        old(p).wf(),
        i < 81,
        forall|k: int| 0 <= k < digits@.len() ==> 1 <= #[trigger] digits@[k] <= 9,
    ensures
        final(p).wf(),
        forall|j: int| 0 <= j < 81 && j != i ==> final(p).cells@[j] == old(p).cells@[j],
        placed == exists|k: int|
            0 <= k < digits@.len() && board_valid(
                #[trigger] placed_board(old(p).cells@, i as int, digits@[k]),
            ),
        placed ==> exists|k: int|
            {
                &&& 0 <= k < digits@.len()
                &&& final(p).cells@ == #[trigger] placed_board(old(p).cells@, i as int, digits@[k])
                &&& board_valid(final(p).cells@)
                &&& forall|k2: int|
                    0 <= k2 < k ==> !board_valid(
                        placed_board(old(p).cells@, i as int, digits@[k2]),
                    )
            },
{
    let mut k: usize = 0;
    while k < digits.len()
        invariant
            p.wf(),
            old(p).wf(),
            i < 81,
            k <= digits@.len(),
            forall|t: int| 0 <= t < digits@.len() ==> 1 <= #[trigger] digits@[t] <= 9,
            forall|j: int| 0 <= j < 81 && j != i ==> p.cells@[j] == old(p).cells@[j],
            forall|k2: int|
                0 <= k2 < k ==> !board_valid(
                    #[trigger] placed_board(old(p).cells@, i as int, digits@[k2]),
                ),
        decreases digits@.len() - k,
    {
        let d = digits[k];
        p.cells.set(i, Cell { value: Some(d), is_given: true, candidates: 0 });
        proof {
            assert(p.cells@ =~= placed_board(old(p).cells@, i as int, digits@[k as int]));
        }
        if p.is_valid() {
            return true;
        }
        k += 1;
    }
    false
}

/// One constructive fill pass over the whole grid, cell by cell in
/// ascending order. Returns the board when every cell took a digit
/// without breaking validity; reports nothing when some cell admitted
/// no digit, and the whole pass is then discarded.
fn fill_attempt() -> (r: Option<Puzzle>)
    ensures
        r matches Some(p) ==> {
            &&& p.wf()
            &&& board_solved(p.cells@)
            &&& forall|j: int|
                0 <= j < 81 ==> (#[trigger] p.cells@[j]).is_given && p.cells@[j].candidates == 0
        },
{
    let mut p = Puzzle::new();
    proof {
        lemma_empty_board_valid_not_solved(p.cells@);
    }
    let mut i: usize = 0;
    while i < 81
        invariant
            p.wf(),
            i <= 81,
            board_valid(p.cells@),
            forall|j: int|
                0 <= j < i ==> (#[trigger] p.cells@[j]).value is Some && p.cells@[j].is_given
                    && p.cells@[j].candidates == 0,
            forall|j: int| i <= j < 81 ==> #[trigger] p.cells@[j] == empty_cell(),
        decreases 81 - i,
    {
        let mut digits = digit_vec();
        let ghost orderly = digits@;
        shuffle_bytes(&mut digits);
        proof {
            lemma_permutation_facts(orderly, digits@);
            assert forall|k: int| 0 <= k < digits@.len() implies 1 <= #[trigger] digits@[k]
                <= 9 by {
                let m = choose|m: int| 0 <= m < orderly.len() && orderly[m] == digits@[k];
                assert(orderly[m] == m + 1);
            }
        }
        let placed = place_first_valid(&mut p, i, &digits);
        if !placed {
            return None;
        }
        i += 1;
    }
    Some(p)
}

/// Clear `count` distinct, randomly chosen cells -- value unset,
/// editable, no candidate marks -- and keep every other cell exactly as
/// generated.
fn remove_cells(p: &mut Puzzle, count: usize)
    requires
        old(p).wf(),
        board_solved(old(p).cells@),
        forall|j: int|
            0 <= j < 81 ==> (#[trigger] old(p).cells@[j]).is_given && old(p).cells@[j].candidates == 0,
        count <= 81,
    ensures
        final(p).wf(),
        board_valid(final(p).cells@),
        num_filled(final(p).cells@) == 81 - count,
        forall|j: int|
            0 <= j < 81 ==> (((#[trigger] final(p).cells@[j]).value is Some) == final(p).cells@[j].is_given),
        forall|j: int| 0 <= j < 81 ==> (#[trigger] final(p).cells@[j]).candidates == 0,
        forall|j: int|
            0 <= j < 81 ==> #[trigger] final(p).cells@[j] == old(p).cells@[j] || final(p).cells@[j]
                == empty_cell(),
{
    let mut idxs = index_vec();
    let ghost orderly = idxs@;
    shuffle_bytes(&mut idxs);
    proof {
        lemma_permutation_facts(orderly, idxs@);
        assert forall|k: int| 0 <= k < 81 implies #[trigger] idxs@[k] < 81 by {
            let m = choose|m: int| 0 <= m < orderly.len() && orderly[m] == idxs@[k];
            assert(orderly[m] == m);
        }
        lemma_num_filled_full(old(p).cells@);
    }
    let mut m: usize = 0;
    while m < count
        invariant
            p.wf(),
            count <= 81,
            m <= count,
            idxs@.len() == 81,
            idxs@.no_duplicates(),
            forall|k: int| 0 <= k < 81 ==> #[trigger] idxs@[k] < 81,
            board_valid(p.cells@),
            num_filled(p.cells@) == 81 - m,
            board_solved(old(p).cells@),
            forall|j: int|
                0 <= j < 81 ==> (#[trigger] old(p).cells@[j]).is_given && old(p).cells@[j].candidates == 0,
            forall|j: int|
                0 <= j < 81 ==> #[trigger] p.cells@[j] == (if among_first(idxs@, m as int, j) {
                    empty_cell()
                } else {
                    old(p).cells@[j]
                }),
        decreases count - m,
    {
        let j = idxs[m] as usize;
        proof {
            assert(idxs@[m as int] < 81);
            if among_first(idxs@, m as int, j as int) {
                let t = choose|t: int| 0 <= t < m && idxs@[t] == j as int;
                assert(idxs@[t] == idxs@[m as int]);
                assert(false);
            }
            assert(p.cells@[j as int] == old(p).cells@[j as int]);
            assert(p.cells@[j as int].value is Some);
            lemma_num_filled_update(p.cells@, j as int, empty_cell());
            lemma_clear_preserves_valid(p.cells@, j as int);
        }
        p.cells.set(j, Cell { value: None, is_given: false, candidates: 0 });
        proof {
            assert(among_first(idxs@, m + 1, j as int)) by {
                assert(0 <= m < m + 1 && idxs@[m as int] == j as int);
            }
            assert forall|j2: int| 0 <= j2 < 81 && j2 != j implies among_first(idxs@, m + 1, j2)
                == among_first(idxs@, m as int, j2) by {
                if among_first(idxs@, m + 1, j2) {
                    let t = choose|t: int| 0 <= t < m + 1 && idxs@[t] == j2;
                    assert(t != m);
                    assert(among_first(idxs@, m as int, j2));
                }
            }
        }
        m += 1;
    }
}

impl Puzzle {
    /// Build a puzzle of the chosen difficulty: fill the whole grid by
    /// randomized constructive search, restarting from a fresh grid
    /// whenever a pass gets stuck, then clear the difficulty's count of
    /// randomly chosen cells. The result has exactly `81 - count`
    /// filled cells, all of them given, is valid, and is the removal
    /// image of a complete solved board: some solved board agrees with
    /// it on every filled cell. Returns nothing only when every attempt
    /// up to the ceiling got stuck.
    pub fn random(difficulty: Difficulty) -> (r: Option<Puzzle>)
        ensures
            r matches Some(p) ==> {
                &&& p.wf()
                &&& board_valid(p.cells@)
                &&& num_filled(p.cells@) == 81 - removal_count(difficulty)
                &&& forall|j: int|
                    0 <= j < 81 ==> (((#[trigger] p.cells@[j]).value is Some)
                        == p.cells@[j].is_given)
                &&& forall|j: int| 0 <= j < 81 ==> (#[trigger] p.cells@[j]).candidates == 0
                &&& exists|full: Seq<Cell>|
                    board_wf(full) && #[trigger] board_solved(full) && agrees_on_filled(
                        p.cells@,
                        full,
                    )
            },
    {
        let count = cells_to_remove(difficulty);
        let mut attempt: usize = 0;
        while attempt < MAX_ATTEMPTS
            invariant
                count == removal_count(difficulty),
            decreases MAX_ATTEMPTS - attempt,
        {
            match fill_attempt() {
                Some(mut p) => {
                    let ghost full = p.cells@;
                    remove_cells(&mut p, count);
                    proof {
                        assert forall|j: int|
                            0 <= j < 81 && (#[trigger] p.cells@[j]).value is Some implies
                        p.cells@[j] == full[j] by {
                            assert(p.cells@[j] == full[j] || p.cells@[j] == empty_cell());
                        }
                        assert(board_wf(full) && board_solved(full) && agrees_on_filled(
                            p.cells@,
                            full,
                        ));
                    }
                    return Some(p);
                },
                None => {
                    attempt += 1;
                },
            }
        }
        None
    }
}

} // verus!
