//! Tests of the move engine, the spawn operation and the terminal predicate,
//! on concrete grids. Cells are written as 0 for empty in the helpers.

use twenty48::{Board, Direction};

/// Build a board from 16 row-major values, 0 meaning an empty cell.
fn mk(cells: [u32; 16]) -> Board {
    let v: Vec<Option<u32>> = cells
        .iter()
        .map(|&x| if x == 0 { None } else { Some(x) })
        .collect();
    Board::from_cells(v).expect("valid grid")
}

/// Read the whole board back as 16 row-major values, 0 meaning empty.
fn snapshot(b: &Board) -> [u32; 16] {
    let mut out = [0u32; 16];
    for r in 0..4 {
        for c in 0..4 {
            out[4 * r + c] = b.cell(r, c).unwrap_or(0);
        }
    }
    out
}

fn count_tiles(b: &Board) -> usize {
    snapshot(b).iter().filter(|&&x| x != 0).count()
}

fn total(b: &Board) -> u64 {
    snapshot(b).iter().map(|&x| x as u64).sum()
}

#[test]
fn new_board_has_exactly_two_tiles_of_2_or_4() {
    for _ in 0..20 {
        let b = Board::new();
        let s = snapshot(&b);
        assert_eq!(s.iter().filter(|&&x| x != 0).count(), 2);
        assert!(s.iter().all(|&x| x == 0 || x == 2 || x == 4));
    }
}

#[test]
fn from_cells_rejects_wrong_length() {
    assert!(Board::from_cells(vec![None; 15]).is_none());
    assert!(Board::from_cells(vec![None; 17]).is_none());
}

#[test]
fn from_cells_rejects_bad_values() {
    let mut v: Vec<Option<u32>> = vec![None; 16];
    v[3] = Some(3);
    assert!(Board::from_cells(v).is_none());
    let mut v: Vec<Option<u32>> = vec![None; 16];
    v[0] = Some(1);
    assert!(Board::from_cells(v).is_none());
    let mut v: Vec<Option<u32>> = vec![None; 16];
    v[5] = Some(0);
    assert!(Board::from_cells(v).is_none());
    let mut v: Vec<Option<u32>> = vec![None; 16];
    v[5] = Some(6);
    assert!(Board::from_cells(v).is_none());
}

#[test]
fn from_cells_accepts_powers_of_two() {
    let mut v: Vec<Option<u32>> = vec![None; 16];
    v[0] = Some(2);
    v[1] = Some(1024);
    v[15] = Some(1 << 30);
    let b = Board::from_cells(v).expect("valid");
    assert_eq!(b.cell(0, 0), Some(2));
    assert_eq!(b.cell(0, 1), Some(1024));
    assert_eq!(b.cell(3, 3), Some(1 << 30));
    assert_eq!(b.cell(1, 2), None);
}

#[test]
fn full_row_of_equal_tiles_merges_pairwise_not_triple() {
    // One merge per destination tile: four 2s become two 4s at the edge,
    // never an 8 and never tiles left in the middle.
    let mut b = mk([2, 2, 2, 2, 0, 0, 0, 0, 0, 0, 0, 0, 0, 0, 0, 0]);
    assert!(b.move_left());
    assert_eq!(snapshot(&b), [4, 4, 0, 0, 0, 0, 0, 0, 0, 0, 0, 0, 0, 0, 0, 0]);
}

#[test]
fn merge_result_does_not_merge_again() {
    let mut b = mk([2, 2, 4, 0, 0, 0, 0, 0, 0, 0, 0, 0, 0, 0, 0, 0]);
    assert!(b.move_left());
    assert_eq!(snapshot(&b), [4, 4, 0, 0, 0, 0, 0, 0, 0, 0, 0, 0, 0, 0, 0, 0]);
    let mut b = mk([2, 2, 4, 4, 0, 0, 0, 0, 0, 0, 0, 0, 0, 0, 0, 0]);
    assert!(b.move_left());
    assert_eq!(snapshot(&b), [4, 8, 0, 0, 0, 0, 0, 0, 0, 0, 0, 0, 0, 0, 0, 0]);
}

#[test]
fn gap_line_merges_left_and_right() {
    // Line [_, 2, _, 2]: left gives [4, _, _, _], right gives [_, _, _, 4].
    let mut b = mk([0, 2, 0, 2, 0, 0, 0, 0, 0, 0, 0, 0, 0, 0, 0, 0]);
    assert!(b.move_left());
    assert_eq!(snapshot(&b), [4, 0, 0, 0, 0, 0, 0, 0, 0, 0, 0, 0, 0, 0, 0, 0]);
    let mut b = mk([0, 2, 0, 2, 0, 0, 0, 0, 0, 0, 0, 0, 0, 0, 0, 0]);
    assert!(b.move_right());
    assert_eq!(snapshot(&b), [0, 0, 0, 4, 0, 0, 0, 0, 0, 0, 0, 0, 0, 0, 0, 0]);
}

#[test]
fn vertical_moves_mirror_horizontal_ones() {
    let mut b = mk([0, 2, 0, 0, 2, 0, 0, 0, 0, 0, 0, 0, 2, 4, 0, 0]);
    assert!(b.move_up());
    assert_eq!(snapshot(&b), [4, 2, 0, 0, 0, 4, 0, 0, 0, 0, 0, 0, 0, 0, 0, 0]);
    let mut b = mk([0, 2, 0, 0, 2, 0, 0, 0, 0, 0, 0, 0, 2, 4, 0, 0]);
    assert!(b.move_down());
    assert_eq!(snapshot(&b), [0, 0, 0, 0, 0, 0, 0, 0, 0, 2, 0, 0, 4, 4, 0, 0]);
}

#[test]
fn settled_grid_move_returns_false_and_leaves_grid_unchanged() {
    let cells = [2, 4, 2, 4, 4, 2, 4, 2, 2, 4, 2, 4, 4, 2, 4, 2];
    let mut b = mk(cells);
    assert!(!b.move_left());
    assert_eq!(snapshot(&b), cells);
    assert!(!b.move_right());
    assert_eq!(snapshot(&b), cells);
    assert!(!b.move_up());
    assert_eq!(snapshot(&b), cells);
    assert!(!b.move_down());
    assert_eq!(snapshot(&b), cells);
}

#[test]
fn second_move_in_same_direction_changes_nothing() {
    let mut b = mk([0, 2, 2, 0, 8, 0, 8, 4, 0, 0, 0, 2, 0, 0, 0, 0]);
    assert!(b.move_left());
    let after_first = snapshot(&b);
    assert!(!b.move_left());
    assert_eq!(snapshot(&b), after_first);
}

#[test]
fn move_conserves_total_and_never_adds_tiles() {
    let mut b = mk([2, 2, 4, 0, 8, 8, 8, 8, 0, 2, 0, 2, 16, 0, 0, 16]);
    let total_before = total(&b);
    let count_before = count_tiles(&b);
    assert!(b.move_left());
    assert_eq!(total(&b), total_before);
    assert!(count_tiles(&b) <= count_before);
    assert!(2 * count_tiles(&b) >= count_before);
}

#[test]
fn apply_move_matches_directional_methods() {
    let start = [2, 2, 4, 0, 8, 8, 8, 8, 0, 2, 0, 2, 16, 0, 0, 16];
    let mut a = mk(start);
    let mut b = mk(start);
    assert_eq!(a.apply_move(Direction::Left), b.move_left());
    assert_eq!(snapshot(&a), snapshot(&b));
    let mut a = mk(start);
    let mut b = mk(start);
    assert_eq!(a.apply_move(Direction::Down), b.move_down());
    assert_eq!(snapshot(&a), snapshot(&b));
}

#[test]
fn game_over_false_with_any_empty_cell() {
    let mut cells = [2, 4, 2, 4, 4, 2, 4, 2, 2, 4, 2, 4, 4, 2, 4, 2];
    cells[9] = 0;
    let b = mk(cells);
    assert!(!b.is_game_over());
}

#[test]
fn game_over_false_with_adjacent_equal_pair() {
    // Full grid, but two equal neighbours in the first row.
    let b = mk([2, 2, 4, 8, 4, 8, 2, 4, 2, 4, 8, 2, 4, 2, 4, 8]);
    assert!(!b.is_game_over());
    // And one with a vertical equal pair.
    let b = mk([2, 4, 2, 4, 2, 8, 4, 2, 4, 2, 8, 4, 8, 4, 2, 8]);
    assert!(!b.is_game_over());
}

#[test]
fn game_over_true_on_full_checkerboard() {
    let b = mk([2, 4, 2, 4, 4, 2, 4, 2, 2, 4, 2, 4, 4, 2, 4, 2]);
    assert!(b.is_game_over());
}

#[test]
fn spawn_on_single_empty_cell_fills_exactly_that_cell() {
    for _ in 0..20 {
        let mut cells = [2, 4, 2, 4, 4, 2, 4, 2, 2, 4, 2, 4, 4, 2, 4, 2];
        cells[9] = 0;
        let mut b = mk(cells);
        b.spawn_random_tile();
        let s = snapshot(&b);
        assert!(s[9] == 2 || s[9] == 4);
        for k in 0..16 {
            if k != 9 {
                assert_eq!(s[k], cells[k]);
            }
        }
    }
}

#[test]
fn spawn_on_full_grid_is_a_no_op() {
    let cells = [2, 4, 2, 4, 4, 2, 4, 2, 2, 4, 2, 4, 4, 2, 4, 2];
    let mut b = mk(cells);
    b.spawn_random_tile();
    assert_eq!(snapshot(&b), cells);
}

#[test]
fn spawn_on_partly_filled_grid_adds_one_tile() {
    for _ in 0..20 {
        let mut b = mk([2, 0, 0, 0, 0, 0, 4, 0, 0, 0, 0, 0, 0, 0, 0, 2]);
        b.spawn_random_tile();
        assert_eq!(count_tiles(&b), 4);
    }
}

#[test]
fn slide_without_merge_keeps_values_in_order() {
    let mut b = mk([0, 2, 0, 4, 0, 0, 0, 0, 8, 0, 16, 0, 0, 0, 0, 0]);
    assert!(b.move_left());
    assert_eq!(snapshot(&b), [2, 4, 0, 0, 0, 0, 0, 0, 8, 16, 0, 0, 0, 0, 0, 0]);
    let mut b = mk([0, 2, 0, 4, 0, 0, 0, 0, 8, 0, 16, 0, 0, 0, 0, 0]);
    assert!(b.move_right());
    assert_eq!(snapshot(&b), [0, 0, 2, 4, 0, 0, 0, 0, 0, 0, 8, 16, 0, 0, 0, 0]);
}

#[test]
fn merge_happens_nearest_the_destination_edge() {
    // [2, 2, 2, _] moving left: the two tiles nearest the edge merge.
    let mut b = mk([2, 2, 2, 0, 0, 0, 0, 0, 0, 0, 0, 0, 0, 0, 0, 0]);
    assert!(b.move_left());
    assert_eq!(snapshot(&b), [4, 2, 0, 0, 0, 0, 0, 0, 0, 0, 0, 0, 0, 0, 0, 0]);
    // The same three tiles moving right: the pair nearest the right edge merges.
    let mut b = mk([2, 2, 2, 0, 0, 0, 0, 0, 0, 0, 0, 0, 0, 0, 0, 0]);
    assert!(b.move_right());
    assert_eq!(snapshot(&b), [0, 0, 2, 4, 0, 0, 0, 0, 0, 0, 0, 0, 0, 0, 0, 0]);
}

#[test]
fn all_lines_move_independently() {
    let mut b = mk([2, 2, 0, 0, 0, 4, 4, 0, 0, 0, 8, 8, 2, 0, 0, 2]);
    assert!(b.move_left());
    assert_eq!(
        snapshot(&b),
        [4, 0, 0, 0, 8, 0, 0, 0, 16, 0, 0, 0, 4, 0, 0, 0]
    );
}

#[test]
fn spawn_tile_with_supplied_choices_is_reproducible() {
    let start = [2, 0, 0, 4, 0, 0, 0, 0, 0, 0, 0, 0, 0, 0, 0, 0];
    let mut a = mk(start);
    a.spawn_tile(0, false);
    let mut b = mk(start);
    b.spawn_tile(0, false);
    assert_eq!(snapshot(&a), snapshot(&b));
    // The first empty cell in row-major order is (0, 1); it gets a 2.
    assert_eq!(a.cell(0, 1), Some(2));
    let mut c = mk(start);
    c.spawn_tile(1, true);
    assert_eq!(c.cell(0, 2), Some(4));
    // The pick wraps around the number of empty cells.
    let mut d = mk(start);
    d.spawn_tile(15, true);
    assert_eq!(snapshot(&c), snapshot(&d));
}

#[test]
fn spawn_tile_on_full_grid_is_a_no_op() {
    let cells = [2, 4, 2, 4, 4, 2, 4, 2, 2, 4, 2, 4, 4, 2, 4, 2];
    let mut b = mk(cells);
    b.spawn_tile(3, true);
    assert_eq!(snapshot(&b), cells);
}
