use sudoku_solver::rules::sudoku::box_groups;
use sudoku_solver::rules::sudoku::column_groups;
use sudoku_solver::rules::sudoku::row_groups;
use sudoku_solver::solver::get_set_indexes;
use sudoku_solver::solver::Board;
use sudoku_solver::solver::Rules;

fn classic_rules() -> Rules {
    Rules { normal_sudoku: true, rubiks: false, sets: vec![] }
}

fn empty_board() -> Board {
    let grid: String = std::iter::repeat('-').take(81).collect();
    Board::from_string(grid, classic_rules())
}

#[test]
fn bitmask_index_maps_row_major() {
    let b = empty_board();
    assert_eq!(b.bitmask_index(0, 0), 0);
    assert_eq!(b.bitmask_index(2, 3), 21);
    assert_eq!(b.bitmask_index(8, 8), 80);
}

#[test]
fn rc_from_index_inverts_bitmask_index() {
    let b = empty_board();
    assert_eq!(b.rc_from_index(21), (2, 3));
    assert_eq!(b.rc_from_index(0), (0, 0));
    assert_eq!(b.rc_from_index(80), (8, 8));
}

#[test]
fn get_box_quotients() {
    let b = empty_board();
    assert_eq!(b.get_box(0, 0), (0, 0));
    assert_eq!(b.get_box(4, 7), (1, 2));
    assert_eq!(b.get_box(8, 2), (2, 0));
}

#[test]
fn bitmask_get_reads_bits() {
    let b = empty_board();
    assert!(b.bitmask_get(0b101, 0));
    assert!(!b.bitmask_get(0b101, 1));
    assert!(b.bitmask_get(0b101, 2));
}

#[test]
fn get_candidates_packs_digit_bits() {
    let mut b = empty_board();
    assert_eq!(b.get_candidates(0), 0x1FF);
    for d in 0..9 {
        if d != 4 {
            b.candidates[d] &= !(1u128 << 17);
        }
    }
    assert_eq!(b.get_candidates(17), 1 << 4);
}

#[test]
fn candidates_vec_lists_digits_ascending() {
    let mut b = empty_board();
    for d in [1usize, 3, 5, 7, 8] {
        b.candidates[d] &= !(1u128 << 9);
    }
    assert_eq!(b.candidates_vec(9), vec![0, 2, 4, 6]);
}

#[test]
fn count_candidates_counts() {
    let mut b = empty_board();
    assert_eq!(b.count_candidates(33), 9);
    for d in 0..9 {
        b.candidates[d] &= !(1u128 << 33);
    }
    assert_eq!(b.count_candidates(33), 0);
}

#[test]
fn get_set_indexes_lists_cells() {
    assert_eq!(get_set_indexes(0), Vec::<u8>::new());
    assert_eq!(get_set_indexes(0b101), vec![0, 2]);
    assert_eq!(get_set_indexes(1u128 << 80), vec![80]);
}

#[test]
fn set_cell_forces_one_digit() {
    let mut b = empty_board();
    b.set_cell(6, 40);
    assert_eq!(b.count_candidates(40), 1);
    assert_eq!(b.candidates_vec(40), vec![6]);
    assert_eq!(b.count_candidates(39), 9);
}

#[test]
fn board_equality_compares_candidates() {
    let a = empty_board();
    let mut b = empty_board();
    assert!(a == b);
    b.candidates[0] &= !(1u128 << 3);
    assert!(a != b);
}

#[test]
fn groups_valid_accepts_classic_and_rejects_junk() {
    let b = Board::new(classic_rules());
    assert!(b.rules.groups_valid());
    let bad = Rules { normal_sudoku: false, rubiks: false, sets: vec![0b111] };
    assert!(!bad.groups_valid());
}

#[test]
fn row_groups_cover_rows() {
    let rows = row_groups();
    assert_eq!(rows.len(), 9);
    for (r, group) in rows.iter().enumerate() {
        assert_eq!(group.len(), 9);
        for (c, cell) in group.iter().enumerate() {
            assert_eq!(*cell, (r, c));
        }
    }
}

#[test]
fn column_groups_cover_columns() {
    let cols = column_groups();
    assert_eq!(cols.len(), 9);
    for (c, group) in cols.iter().enumerate() {
        assert_eq!(group.len(), 9);
        for (r, cell) in group.iter().enumerate() {
            assert_eq!(*cell, (r, c));
        }
    }
}

#[test]
fn box_groups_cover_the_nine_blocks() {
    let boxes = box_groups();
    assert_eq!(boxes.len(), 9);
    for (b, group) in boxes.iter().enumerate() {
        assert_eq!(group.len(), 9);
        for (cell, rc) in group.iter().enumerate() {
            assert_eq!(*rc, ((b / 3) * 3 + cell / 3, (b % 3) * 3 + cell % 3));
        }
        // Nine distinct cells, all inside the block.
        for i in 0..9 {
            for j in 0..9 {
                if i != j {
                    assert_ne!(group[i], group[j]);
                }
            }
            assert_eq!(group[i].0 / 3, b / 3);
            assert_eq!(group[i].1 / 3, b % 3);
        }
    }
}
