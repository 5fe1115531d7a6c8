use sudoku_core::board::{valid_chunk, Cell, Puzzle};

/// A fully solved grid: row `r`, column `c` holds
/// `(r * 3 + r / 3 + c) % 9 + 1`, which satisfies every row, column and
/// box constraint.
fn solved_value(index: usize) -> u8 {
    let r = index / 9;
    let c = index % 9;
    ((r * 3 + r / 3 + c) % 9 + 1) as u8
}

fn board_with_values<F: Fn(usize) -> Option<u8>>(f: F) -> Puzzle {
    let mut p = Puzzle::new();
    for i in 0..81 {
        let v = f(i);
        p.cells[i] = Cell {
            value: v,
            is_given: v.is_some(),
            candidates: 0,
        };
    }
    p
}

#[test]
fn valid_chunk_all_unset() {
    let chunk: Vec<Option<u8>> = vec![None; 9];
    assert!(valid_chunk(&chunk));
}

#[test]
fn valid_chunk_partial_no_duplicates() {
    // Any number of unset entries is fine as long as no present digit
    // repeats.
    let chunk = vec![
        Some(5),
        Some(3),
        None,
        None,
        Some(7),
        None,
        None,
        None,
        None,
    ];
    assert!(valid_chunk(&chunk));
    let full = vec![
        Some(1),
        Some(2),
        Some(3),
        Some(4),
        Some(5),
        Some(6),
        Some(7),
        Some(8),
        Some(9),
    ];
    assert!(valid_chunk(&full));
}

#[test]
fn valid_chunk_duplicate_anywhere_invalid() {
    // The row segment [5,3,_,_,7,_,_,_,_] is valid; writing a second 5
    // into any unset slot makes it invalid.
    let base = vec![
        Some(5),
        Some(3),
        None,
        None,
        Some(7),
        None,
        None,
        None,
        None,
    ];
    assert!(valid_chunk(&base));
    for slot in [2usize, 3, 5, 6, 7, 8] {
        let mut chunk = base.clone();
        chunk[slot] = Some(5);
        assert!(!valid_chunk(&chunk), "duplicate 5 at slot {} accepted", slot);
    }
}

#[test]
fn empty_board_valid_but_not_solved() {
    let p = Puzzle::new();
    assert!(p.is_valid());
    assert!(!p.is_solved());
}

#[test]
fn solved_board_valid_and_solved() {
    let p = board_with_values(|i| Some(solved_value(i)));
    assert!(p.is_valid());
    assert!(p.is_solved());
}

#[test]
fn duplicate_in_row_detected() {
    let p = board_with_values(|i| match i {
        3 => Some(8),
        7 => Some(8),
        _ => None,
    });
    assert!(!p.is_valid());
    assert!(!p.is_solved());
}

#[test]
fn duplicate_in_column_detected() {
    // Indices 4 and 76 share column 4.
    let p = board_with_values(|i| match i {
        4 => Some(2),
        76 => Some(2),
        _ => None,
    });
    assert!(!p.is_valid());
}

#[test]
fn box_partition_covers_documented_indices() {
    // Box 0 covers {0,1,2,9,10,11,18,19,20}, box 4 covers
    // {30,31,32,39,40,41,48,49,50}, box 8 covers
    // {60,61,62,69,70,71,78,79,80}. Tag every cell with its row in one
    // board and its column in another; the box contents must match the
    // coordinates of exactly those indices.
    let expected: [[usize; 9]; 3] = [
        [0, 1, 2, 9, 10, 11, 18, 19, 20],
        [30, 31, 32, 39, 40, 41, 48, 49, 50],
        [60, 61, 62, 69, 70, 71, 78, 79, 80],
    ];
    let by_row = board_with_values(|i| Some((i / 9 + 1) as u8));
    let by_col = board_with_values(|i| Some((i % 9 + 1) as u8));
    let row_boxes = by_row.get_boxes();
    let col_boxes = by_col.get_boxes();
    for (bx, indices) in [0usize, 4, 8].into_iter().zip(expected.iter()) {
        let want_rows: Vec<Option<u8>> = indices.iter().map(|&i| Some((i / 9 + 1) as u8)).collect();
        let want_cols: Vec<Option<u8>> = indices.iter().map(|&i| Some((i % 9 + 1) as u8)).collect();
        assert_eq!(row_boxes[bx], want_rows);
        assert_eq!(col_boxes[bx], want_cols);
    }
}

#[test]
fn duplicate_in_box_detected() {
    // 30 and 50 both lie in box 4 but share no row and no column.
    let p = board_with_values(|i| match i {
        30 => Some(6),
        50 => Some(6),
        _ => None,
    });
    assert!(!p.is_valid());
    // 0 and 30 share no row, column or box: the same digit twice is fine.
    let q = board_with_values(|i| match i {
        0 => Some(6),
        30 => Some(6),
        _ => None,
    });
    assert!(q.is_valid());
    // 60 and 78 both lie in box 8.
    let r = board_with_values(|i| match i {
        60 => Some(4),
        78 => Some(4),
        _ => None,
    });
    assert!(!r.is_valid());
}

#[test]
fn rows_and_columns_extracted_in_order() {
    let p = board_with_values(|i| Some(solved_value(i)));
    let rows = p.get_rows();
    let cols = p.get_columns();
    assert_eq!(rows.len(), 9);
    assert_eq!(cols.len(), 9);
    for g in 0..9 {
        for k in 0..9 {
            assert_eq!(rows[g][k], Some(solved_value(g * 9 + k)));
            assert_eq!(cols[g][k], Some(solved_value(k * 9 + g)));
        }
    }
}

#[test]
fn has_candidate_reads_mask() {
    let c = Cell {
        value: None,
        is_given: false,
        candidates: 0b0_0010_0101,
    };
    assert!(c.has_candidate(1));
    assert!(!c.has_candidate(2));
    assert!(c.has_candidate(3));
    assert!(c.has_candidate(6));
    assert!(!c.has_candidate(9));
    assert!(!c.has_candidate(0));
    assert!(!c.has_candidate(10));
}
