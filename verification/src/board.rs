//! The board model: cells, the candidate-mark set of a cell, the row /
//! column / box partitions of the 81 linear indices, and the uniqueness
//! rule that makes a group of nine optional digits valid.

use vstd::prelude::*;

verus! {

// ---------------------------------------------------------------------
// Candidate marks: one flag per digit 1..=9, kept in the low nine bits
// of a `u16`.
// ---------------------------------------------------------------------

/// A candidate mask uses only the nine low bits.
pub open spec fn mask_wf(mask: u16) -> bool {
    mask < 512
}

/// Digit `digit` is marked as a candidate in `mask`.
pub open spec fn mask_has(mask: u16, digit: u8) -> bool {
    1 <= digit <= 9 && (mask >> ((digit - 1) as u16)) & 1 == 1
}

/// `mask` with the flag of `digit` flipped.
pub open spec fn mask_toggled(mask: u16, digit: u8) -> u16 {
    mask ^ (1u16 << ((digit - 1) as u16))
}

/// Flipping a digit's flag changes the membership of that digit and of no
/// other, and keeps the mask well formed.
pub proof fn lemma_mask_toggle_flips(mask: u16, digit: u8)
    requires
        1 <= digit <= 9,
    ensures
        mask_has(mask_toggled(mask, digit), digit) == !mask_has(mask, digit),
        forall|e: u8|
            1 <= e <= 9 && e != digit ==> mask_has(mask_toggled(mask, digit), e) == mask_has(
                mask,
                e,
            ),
        mask_wf(mask) ==> mask_wf(mask_toggled(mask, digit)),
{
    let s = (digit - 1) as u16;
    assert(s < 9 ==> ((mask ^ (1u16 << s)) >> s) & 1 == 1 - ((mask >> s) & 1)) by (bit_vector);
    assert(forall|t: u16|
        s < 9 && t < 9 && t != s ==> ((mask ^ (1u16 << s)) >> t) & 1 == (mask >> t)
            & 1) by (bit_vector);
    assert(mask < 512 && s < 9 ==> (mask ^ (1u16 << s)) < 512) by (bit_vector);
    assert forall|e: u8| 1 <= e <= 9 && e != digit implies mask_has(mask_toggled(mask, digit), e)
        == mask_has(mask, e) by {
        let t = (e - 1) as u16;
        assert(t < 9 && t != s);
    }
}

/// Flipping the same digit's flag twice restores the mask exactly: the
/// candidate set returns to its original state.
pub proof fn lemma_mask_toggle_twice(mask: u16, digit: u8)
    requires
        1 <= digit <= 9,
    ensures
        mask_toggled(mask_toggled(mask, digit), digit) == mask,
{
    let s = (digit - 1) as u16;
    assert((mask ^ (1u16 << s)) ^ (1u16 << s) == mask) by (bit_vector);
}

// ---------------------------------------------------------------------
// Cells and boards.
// ---------------------------------------------------------------------

/// One of the 81 positions of the grid: an optional digit, a flag that
/// marks the cell as fixed by the puzzle, and the candidate marks.
#[derive(Clone, Copy, Debug, PartialEq, Eq)]
pub struct Cell {
    pub value: Option<u8>,
    pub is_given: bool,
    pub candidates: u16,
}

impl Cell {
    /// Whether `digit` is marked as a candidate in this cell; false for
    /// anything outside 1..=9.
    pub fn has_candidate(&self, digit: u8) -> (r: bool)
        ensures
            r == mask_has(self.candidates, digit),
    {
        if digit < 1 || digit > 9 {
            return false;
        }
        (self.candidates >> ((digit - 1) as u16)) & 1 == 1
    }
}

/// A cell holds a digit 1..=9 or nothing, a given cell always holds a
/// digit, and the candidate mask uses only its nine flags.
pub open spec fn cell_wf(c: Cell) -> bool {
    &&& (c.value matches Some(d) ==> 1 <= d <= 9)
    &&& (c.is_given ==> c.value is Some)
    &&& mask_wf(c.candidates)
}

/// The state a cell is reset to: no value, editable, no candidate marks.
pub open spec fn empty_cell() -> Cell {
    (Cell { value: None, is_given: false, candidates: 0 })
}

/// Exactly 81 well-formed cells.
pub open spec fn board_wf(s: Seq<Cell>) -> bool {
    &&& s.len() == 81
    &&& forall|i: int| 0 <= i < 81 ==> cell_wf(#[trigger] s[i])
}

// ---------------------------------------------------------------------
// The three partitions: rows, columns, boxes.
// ---------------------------------------------------------------------

/// Linear index of entry `k` of row `g` (row-major layout).
pub open spec fn row_index(g: int, k: int) -> int {
    g * 9 + k
}

/// Linear index of entry `k` of column `g`.
pub open spec fn col_index(g: int, k: int) -> int {
    k * 9 + g
}

/// Linear index of entry `k` of box `g`: the 3x3 block whose top-left
/// corner is `(g % 3) * 3 + (g / 3) * 27`.
pub open spec fn box_index(g: int, k: int) -> int {
    (g % 3) * 3 + (g / 3) * 27 + (k / 3) * 9 + (k % 3)
}

/// The nine values of row `g`.
pub open spec fn row_values(s: Seq<Cell>, g: int) -> Seq<Option<u8>> {
    Seq::new(9, |k: int| s[row_index(g, k)].value)
}

/// The nine values of column `g`.
pub open spec fn col_values(s: Seq<Cell>, g: int) -> Seq<Option<u8>> {
    Seq::new(9, |k: int| s[col_index(g, k)].value)
}

/// The nine values of box `g`.
pub open spec fn box_values(s: Seq<Cell>, g: int) -> Seq<Option<u8>> {
    Seq::new(9, |k: int| s[box_index(g, k)].value)
}

// ---------------------------------------------------------------------
// The uniqueness rule.
// ---------------------------------------------------------------------

/// A group of optional digits is valid when no present digit repeats:
/// entries without a value never invalidate the group.
pub open spec fn chunk_valid(vals: Seq<Option<u8>>) -> bool {
    forall|i: int, j: int|
        0 <= i < j < vals.len() && #[trigger] vals[i] is Some ==> vals[i] != #[trigger] vals[j]
}

/// All nine rows, nine columns and nine boxes are valid.
pub open spec fn board_valid(s: Seq<Cell>) -> bool {
    forall|g: int|
        0 <= g < 9 ==> chunk_valid(#[trigger] row_values(s, g)) && chunk_valid(col_values(s, g))
            && chunk_valid(box_values(s, g))
}

/// Every cell holds a digit.
pub open spec fn all_filled(s: Seq<Cell>) -> bool {
    forall|i: int| 0 <= i < 81 ==> (#[trigger] s[i]).value is Some
}

/// Solved: valid and fully filled.
pub open spec fn board_solved(s: Seq<Cell>) -> bool {
    board_valid(s) && all_filled(s)
}

/// `partial` agrees with `full` on every filled cell: `partial` is an
/// image of `full` with some cells emptied.
pub open spec fn agrees_on_filled(partial: Seq<Cell>, full: Seq<Cell>) -> bool {
    forall|j: int| 0 <= j < 81 && (#[trigger] partial[j]).value is Some ==> partial[j] == full[j]
}

/// How many cells hold a digit.
pub open spec fn num_filled(s: Seq<Cell>) -> int
    decreases s.len(),
{
    if s.len() == 0 {
        0
    } else {
        num_filled(s.drop_last()) + if s.last().value is Some {
            1int
        } else {
            0int
        }
    }
}

// ---------------------------------------------------------------------
// The executable checker and the board type.
// ---------------------------------------------------------------------

/// True exactly when no present digit repeats in `input`; entries that
/// are unset are ignored, so a group with any number of empty entries --
/// including an entirely empty one -- is valid.
pub fn valid_chunk(input: &Vec<Option<u8>>) -> (r: bool)
    ensures
        r == chunk_valid(input@),
{
    let n = input.len();
    let mut i: usize = 0;
    while i < n
        invariant
            n == input@.len(),
            i <= n,
            forall|a: int, b: int|
                0 <= a < b < n && a < i && #[trigger] input@[a] is Some ==> input@[a]
                    != #[trigger] input@[b],
        decreases n - i,
    {
        if input[i].is_some() {
            let mut j: usize = i + 1;
            while j < n
                invariant
                    n == input@.len(),
                    i < j <= n,
                    input@[i as int] is Some,
                    forall|b: int| i < b < j ==> input@[i as int] != #[trigger] input@[b],
                decreases n - j,
            {
                if input[i] == input[j] {
                    assert(!chunk_valid(input@));
                    return false;
                }
                j += 1;
            }
        }
        i += 1;
    }
    true
}

/// The 81-cell grid.
pub struct Puzzle {
    pub cells: Vec<Cell>,
}

impl Puzzle {
    /// The board invariant: 81 well-formed cells.
    pub open spec fn wf(&self) -> bool {
        board_wf(self.cells@)
    }

    /// A board of 81 empty, editable cells.
    pub fn new() -> (p: Puzzle)
        ensures
            p.wf(),
            forall|i: int| 0 <= i < 81 ==> #[trigger] p.cells@[i] == empty_cell(),
    {
        let mut cells: Vec<Cell> = Vec::new();
        let mut i: usize = 0;
        while i < 81
            invariant
                i <= 81,
                cells@.len() == i,
                forall|j: int| 0 <= j < i ==> #[trigger] cells@[j] == empty_cell(),
            decreases 81 - i,
        {
            cells.push(Cell { value: None, is_given: false, candidates: 0 });
            i += 1;
        }
        Puzzle { cells }
    }

    /// The nine rows, each as its nine values in order.
    pub fn get_rows(&self) -> (r: Vec<Vec<Option<u8>>>)
        requires
            self.wf(),
        ensures
            r@.len() == 9,
            forall|g: int| 0 <= g < 9 ==> #[trigger] r@[g]@ == row_values(self.cells@, g),
    {
        let mut rows: Vec<Vec<Option<u8>>> = Vec::new();
        let mut g: usize = 0;
        while g < 9
            invariant
                self.wf(),
                g <= 9,
                rows@.len() == g,
                forall|h: int| 0 <= h < g ==> #[trigger] rows@[h]@ == row_values(self.cells@, h),
            decreases 9 - g,
        {
            let mut vals: Vec<Option<u8>> = Vec::new();
            let mut k: usize = 0;
            while k < 9
                invariant
                    self.wf(),
                    g < 9,
                    k <= 9,
                    vals@.len() == k,
                    forall|t: int|
                        0 <= t < k ==> #[trigger] vals@[t] == self.cells@[row_index(
                            g as int,
                            t,
                        )].value,
                decreases 9 - k,
            {
                vals.push(self.cells[g * 9 + k].value);
                k += 1;
            }
            assert(vals@ =~= row_values(self.cells@, g as int));
            rows.push(vals);
            g += 1;
        }
        rows
    }

    /// The nine columns, each as its nine values in order.
    pub fn get_columns(&self) -> (r: Vec<Vec<Option<u8>>>)
        requires
            self.wf(),
        ensures
            r@.len() == 9,
            forall|g: int| 0 <= g < 9 ==> #[trigger] r@[g]@ == col_values(self.cells@, g),
    {
        let mut cols: Vec<Vec<Option<u8>>> = Vec::new();
        let mut g: usize = 0;
        while g < 9
            invariant
                self.wf(),
                g <= 9,
                cols@.len() == g,
                forall|h: int| 0 <= h < g ==> #[trigger] cols@[h]@ == col_values(self.cells@, h),
            decreases 9 - g,
        {
            let mut vals: Vec<Option<u8>> = Vec::new();
            let mut k: usize = 0;
            while k < 9
                invariant
                    self.wf(),
                    g < 9,
                    k <= 9,
                    vals@.len() == k,
                    forall|t: int|
                        0 <= t < k ==> #[trigger] vals@[t] == self.cells@[col_index(
                            g as int,
                            t,
                        )].value,
                decreases 9 - k,
            {
                vals.push(self.cells[k * 9 + g].value);
                k += 1;
            }
            assert(vals@ =~= col_values(self.cells@, g as int));
            cols.push(vals);
            g += 1;
        }
        cols
    }

    /// The nine boxes, each as its nine values in row-major order within
    /// the box.
    pub fn get_boxes(&self) -> (r: Vec<Vec<Option<u8>>>)
        requires
            self.wf(),
        ensures
            r@.len() == 9,
            forall|g: int| 0 <= g < 9 ==> #[trigger] r@[g]@ == box_values(self.cells@, g),
    {
        let mut boxes: Vec<Vec<Option<u8>>> = Vec::new();
        let mut g: usize = 0;
        while g < 9
            invariant
                self.wf(),
                g <= 9,
                boxes@.len() == g,
                forall|h: int| 0 <= h < g ==> #[trigger] boxes@[h]@ == box_values(self.cells@, h),
            decreases 9 - g,
        {
            let start: usize = (g % 3) * 3 + (g / 3) * 27;
            let mut vals: Vec<Option<u8>> = Vec::new();
            let mut k: usize = 0;
            while k < 9
                invariant
                    self.wf(),
                    g < 9,
                    k <= 9,
                    start == (g % 3) * 3 + (g / 3) * 27,
                    vals@.len() == k,
                    forall|t: int|
                        0 <= t < k ==> #[trigger] vals@[t] == self.cells@[box_index(
                            g as int,
                            t,
                        )].value,
                decreases 9 - k,
            {
                vals.push(self.cells[start + (k / 3) * 9 + k % 3].value);
                k += 1;
            }
            assert(vals@ =~= box_values(self.cells@, g as int));
            boxes.push(vals);
            g += 1;
        }
        boxes
    }

    /// True exactly when all 27 groups -- rows, columns and boxes --
    /// satisfy the uniqueness rule.
    pub fn is_valid(&self) -> (r: bool)
        requires
            self.wf(),
        ensures
            r == board_valid(self.cells@),
    {
        let rows = self.get_rows();
        let cols = self.get_columns();
        let boxes = self.get_boxes();
        let mut g: usize = 0;
        while g < 9
            invariant
                self.wf(),
                g <= 9,
                rows@.len() == 9,
                cols@.len() == 9,
                boxes@.len() == 9,
                forall|h: int| 0 <= h < 9 ==> #[trigger] rows@[h]@ == row_values(self.cells@, h),
                forall|h: int| 0 <= h < 9 ==> #[trigger] cols@[h]@ == col_values(self.cells@, h),
                forall|h: int| 0 <= h < 9 ==> #[trigger] boxes@[h]@ == box_values(self.cells@, h),
                forall|h: int|
                    0 <= h < g ==> chunk_valid(#[trigger] row_values(self.cells@, h))
                        && chunk_valid(col_values(self.cells@, h)) && chunk_valid(
                        box_values(self.cells@, h),
                    ),
            decreases 9 - g,
        {
            if !valid_chunk(&rows[g]) {
                return false;
            }
            if !valid_chunk(&cols[g]) {
                return false;
            }
            if !valid_chunk(&boxes[g]) {
                return false;
            }
            proof {
                assert(rows@[g as int]@ == row_values(self.cells@, g as int));
                assert(cols@[g as int]@ == col_values(self.cells@, g as int));
                assert(boxes@[g as int]@ == box_values(self.cells@, g as int));
            }
            g += 1;
        }
        true
    }

    /// Solved: valid and all 81 cells filled. A solved board is always
    /// valid, but a valid board need not be solved.
    pub fn is_solved(&self) -> (r: bool)
        requires
            self.wf(),
        ensures
            r == board_solved(self.cells@),
    {
        let mut filled: usize = 0;
        let mut i: usize = 0;
        while i < 81
            invariant
                self.wf(),
                i <= 81,
                filled <= i,
                filled == num_filled(self.cells@.take(i as int)),
                (filled == i as int) == (forall|j: int|
                    0 <= j < i ==> (#[trigger] self.cells@[j]).value is Some),
            decreases 81 - i,
        {
            proof {
                assert(self.cells@.take(i + 1).drop_last() =~= self.cells@.take(i as int));
            }
            if self.cells[i].value.is_some() {
                filled += 1;
            }
            i += 1;
        }
        proof {
            assert(self.cells@.take(81) =~= self.cells@);
        }
        self.is_valid() && filled == 81
    }
}

// ---------------------------------------------------------------------
// Laws of the uniqueness rule and of the partitions.
// ---------------------------------------------------------------------

/// A group whose present digits are pairwise distinct is valid, no
/// matter how many of its entries are unset.
pub proof fn lemma_distinct_present_valid(vals: Seq<Option<u8>>)
    requires
        forall|i: int, j: int|
            0 <= i < j < vals.len() && #[trigger] vals[i] is Some && #[trigger] vals[j] is Some
                ==> vals[i] != vals[j],
    ensures
        chunk_valid(vals),
{
    assert forall|i: int, j: int|
        0 <= i < j < vals.len() && #[trigger] vals[i] is Some implies vals[i]
        != #[trigger] vals[j] by {
        if vals[j] is Some {
            assert(vals[i] != vals[j]);
        }
    }
}

/// A group with no present digit at all is valid.
pub proof fn lemma_all_unset_chunk_valid(vals: Seq<Option<u8>>)
    requires
        forall|k: int| 0 <= k < vals.len() ==> !(#[trigger] vals[k] is Some),
    ensures
        chunk_valid(vals),
{
}

/// A solved board is always valid.
pub proof fn lemma_solved_implies_valid(s: Seq<Cell>)
    ensures
        board_solved(s) ==> board_valid(s),
{
}

/// The converse fails: a board of 81 unset cells is valid but not
/// solved.
pub proof fn lemma_empty_board_valid_not_solved(s: Seq<Cell>)
    requires
        s.len() == 81,
        forall|i: int| 0 <= i < 81 ==> !((#[trigger] s[i]).value is Some),
    ensures
        board_valid(s),
        !board_solved(s),
{
    assert forall|g: int| 0 <= g < 9 implies chunk_valid(#[trigger] row_values(s, g))
        && chunk_valid(col_values(s, g)) && chunk_valid(box_values(s, g)) by {
        assert forall|k: int| 0 <= k < 9 implies !(#[trigger] row_values(s, g)[k] is Some) by {
            assert(0 <= row_index(g, k) < 81);
        }
        assert forall|k: int| 0 <= k < 9 implies !(#[trigger] col_values(s, g)[k] is Some) by {
            assert(0 <= col_index(g, k) < 81);
        }
        assert forall|k: int| 0 <= k < 9 implies !(#[trigger] box_values(s, g)[k] is Some) by {
            assert(0 <= box_index(g, k) < 81);
        }
        lemma_all_unset_chunk_valid(row_values(s, g));
        lemma_all_unset_chunk_valid(col_values(s, g));
        lemma_all_unset_chunk_valid(box_values(s, g));
    }
    assert(!(s[0].value is Some));
}

/// The box partition formula, written out: box 0 covers the linear
/// indices {0,1,2,9,10,11,18,19,20}, box 4 (the center) covers
/// {30,31,32,39,40,41,48,49,50}, and box 8 covers
/// {60,61,62,69,70,71,78,79,80}.
pub proof fn lemma_box_coverage()
    ensures
        Seq::new(9, |k: int| box_index(0, k)) =~= seq![0int, 1, 2, 9, 10, 11, 18, 19, 20],
        Seq::new(9, |k: int| box_index(4, k)) =~= seq![30int, 31, 32, 39, 40, 41, 48, 49, 50],
        Seq::new(9, |k: int| box_index(8, k)) =~= seq![60int, 61, 62, 69, 70, 71, 78, 79, 80],
{
}

/// Every linear index belongs to exactly one row, one column and one
/// box, at exactly one position of each: row `t / 9`, column `t % 9`,
/// box `3 * (t / 27) + (t % 9) / 3`. The 27 nine-cell groups together
/// touch each cell exactly three times, once per partition kind.
pub proof fn lemma_partitions_cover_each_index_once(t: int)
    requires
        0 <= t < 81,
    ensures
        0 <= t / 9 < 9 && 0 <= t % 9 < 9,
        0 <= 3 * (t / 27) + (t % 9) / 3 < 9 && 0 <= 3 * ((t / 9) % 3) + t % 3 < 9,
        row_index(t / 9, t % 9) == t,
        col_index(t % 9, t / 9) == t,
        box_index(3 * (t / 27) + (t % 9) / 3, 3 * ((t / 9) % 3) + t % 3) == t,
        forall|g: int, k: int|
            0 <= g < 9 && 0 <= k < 9 && #[trigger] row_index(g, k) == t ==> g == t / 9 && k == t
                % 9,
        forall|g: int, k: int|
            0 <= g < 9 && 0 <= k < 9 && #[trigger] col_index(g, k) == t ==> g == t % 9 && k == t
                / 9,
        forall|g: int, k: int|
            0 <= g < 9 && 0 <= k < 9 && #[trigger] box_index(g, k) == t ==> g == 3 * (t / 27) + (t
                % 9) / 3 && k == 3 * ((t / 9) % 3) + t % 3,
{
    vstd::arithmetic::div_mod::lemma_fundamental_div_mod(t, 9);
    vstd::arithmetic::div_mod::lemma_fundamental_div_mod(t / 9, 3);
    vstd::arithmetic::div_mod::lemma_fundamental_div_mod(t % 9, 3);
    vstd::arithmetic::div_mod::lemma_div_denominator(t, 9, 3);
    vstd::arithmetic::div_mod::lemma_mod_mod(t, 3, 3);
    vstd::arithmetic::div_mod::lemma_fundamental_div_mod_converse(
        3 * (t / 27) + (t % 9) / 3,
        3,
        t / 27,
        (t % 9) / 3,
    );
    vstd::arithmetic::div_mod::lemma_fundamental_div_mod_converse(
        3 * ((t / 9) % 3) + t % 3,
        3,
        (t / 9) % 3,
        t % 3,
    );
    assert forall|g: int, k: int|
        0 <= g < 9 && 0 <= k < 9 && #[trigger] row_index(g, k) == t implies g == t / 9 && k == t
        % 9 by {
        vstd::arithmetic::div_mod::lemma_fundamental_div_mod_converse(t, 9, g, k);
    }
    assert forall|g: int, k: int|
        0 <= g < 9 && 0 <= k < 9 && #[trigger] col_index(g, k) == t implies g == t % 9 && k == t
        / 9 by {
        vstd::arithmetic::div_mod::lemma_fundamental_div_mod_converse(t, 9, k, g);
    }
    assert forall|g: int, k: int|
        0 <= g < 9 && 0 <= k < 9 && #[trigger] box_index(g, k) == t implies g == 3 * (t / 27) + (t
        % 9) / 3 && k == 3 * ((t / 9) % 3) + t % 3 by {
        vstd::arithmetic::div_mod::lemma_fundamental_div_mod(g, 3);
        vstd::arithmetic::div_mod::lemma_fundamental_div_mod(k, 3);
        vstd::arithmetic::div_mod::lemma_fundamental_div_mod_converse(
            t,
            27,
            g / 3,
            3 * (g % 3) + 9 * (k / 3) + k % 3,
        );
        vstd::arithmetic::div_mod::lemma_fundamental_div_mod_converse(
            t,
            9,
            3 * (g / 3) + k / 3,
            3 * (g % 3) + k % 3,
        );
        vstd::arithmetic::div_mod::lemma_fundamental_div_mod_converse(t % 9, 3, g % 3, k % 3);
        vstd::arithmetic::div_mod::lemma_fundamental_div_mod_converse(t / 9, 3, g / 3, k / 3);
    }
}

// ---------------------------------------------------------------------
// Counting and preservation lemmas.
// ---------------------------------------------------------------------

/// Replacing one cell changes the filled count exactly by the
/// difference between the old and the new entry.
pub proof fn lemma_num_filled_update(s: Seq<Cell>, i: int, c: Cell)
    requires
        0 <= i < s.len(),
    ensures
        num_filled(s.update(i, c)) == num_filled(s) - (if s[i].value is Some {
            1int
        } else {
            0int
        }) + (if c.value is Some {
            1int
        } else {
            0int
        }),
    decreases s.len(),
{
    let s2 = s.update(i, c);
    if i == s.len() - 1 {
        assert(s2.drop_last() =~= s.drop_last());
    } else {
        assert(s2.drop_last() =~= s.drop_last().update(i, c));
        lemma_num_filled_update(s.drop_last(), i, c);
        assert(s2.last() == s.last());
    }
}

/// A fully filled board has filled count equal to its length.
pub proof fn lemma_num_filled_full(s: Seq<Cell>)
    requires
        forall|i: int| 0 <= i < s.len() ==> (#[trigger] s[i]).value is Some,
    ensures
        num_filled(s) == s.len(),
    decreases s.len(),
{
    if s.len() > 0 {
        lemma_num_filled_full(s.drop_last());
    }
}

/// Weakening a group entry by entry -- each entry keeps its value or
/// becomes unset -- preserves its validity.
proof fn lemma_chunk_weaken(c1: Seq<Option<u8>>, c2: Seq<Option<u8>>)
    requires
        c1.len() == c2.len(),
        chunk_valid(c1),
        forall|k: int| 0 <= k < c2.len() ==> #[trigger] c2[k] == c1[k] || c2[k] is None,
    ensures
        chunk_valid(c2),
{
    assert forall|i: int, j: int|
        0 <= i < j < c2.len() && #[trigger] c2[i] is Some implies c2[i] != #[trigger] c2[j] by {
        assert(c2[i] == c1[i]);
        if !(c2[j] is None) {
            assert(c2[j] == c1[j]);
            assert(c1[i] != c1[j]);
        }
    }
}

/// Emptying one cell preserves the validity of the whole board:
/// removing a value never introduces a duplicate.
pub proof fn lemma_clear_preserves_valid(s: Seq<Cell>, t: int)
    requires
        s.len() == 81,
        0 <= t < 81,
        board_valid(s),
    ensures
        board_valid(s.update(t, empty_cell())),
{
    let s2 = s.update(t, empty_cell());
    assert forall|g: int| 0 <= g < 9 implies chunk_valid(#[trigger] row_values(s2, g))
        && chunk_valid(col_values(s2, g)) && chunk_valid(box_values(s2, g)) by {
        assert forall|k: int| 0 <= k < 9 implies #[trigger] row_values(s2, g)[k] == row_values(
            s,
            g,
        )[k] || row_values(s2, g)[k] is None by {
            assert(0 <= row_index(g, k) < 81);
        }
        assert forall|k: int| 0 <= k < 9 implies #[trigger] col_values(s2, g)[k] == col_values(
            s,
            g,
        )[k] || col_values(s2, g)[k] is None by {
            assert(0 <= col_index(g, k) < 81);
        }
        assert forall|k: int| 0 <= k < 9 implies #[trigger] box_values(s2, g)[k] == box_values(
            s,
            g,
        )[k] || box_values(s2, g)[k] is None by {
            assert(0 <= box_index(g, k) < 81);
        }
        lemma_chunk_weaken(row_values(s, g), row_values(s2, g));
        lemma_chunk_weaken(col_values(s, g), col_values(s2, g));
        lemma_chunk_weaken(box_values(s, g), box_values(s2, g));
    }
}

} // verus!
