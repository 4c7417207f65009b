use sudoku_solver::solver::Board;
use sudoku_solver::solver::Rules;

const SOLVED: &str =
    "123456789456789123789123456234567891567891234891234567345678912678912345912345678";

fn classic_rules() -> Rules {
    Rules { normal_sudoku: true, rubiks: false, sets: vec![] }
}

fn empty_board() -> Board {
    let grid: String = std::iter::repeat('-').take(81).collect();
    Board::from_string(grid, classic_rules())
}

/// A puzzle with the diagonal blanked: each row still pins its blank cell.
fn diagonal_puzzle() -> String {
    let mut chars: Vec<char> = SOLVED.chars().collect();
    for r in 0..9 {
        chars[r * 9 + r] = '-';
    }
    chars.into_iter().collect()
}

#[test]
fn eliminate_is_idempotent_after_one_sweep() {
    let mut b = Board::from_string(diagonal_puzzle(), classic_rules());
    b.update_cell_complete();
    b.update_candidates();
    let after_first = b.candidates;
    b.update_candidates();
    assert_eq!(b.candidates, after_first);
}

#[test]
fn update_cell_complete_is_monotonic() {
    let mut b = Board::from_string(diagonal_puzzle(), classic_rules());
    b.update_cell_complete();
    let first = b.cell_complete;
    b.update_candidates();
    b.update_cell_complete();
    let second = b.cell_complete;
    assert_eq!(first & second, first);
    assert!(second.count_ones() >= first.count_ones());
}

#[test]
fn classic_rules_have_27_distinct_nine_cell_groups() {
    let b = Board::new(classic_rules());
    assert_eq!(b.rules.sets.len(), 27);
    for set in &b.rules.sets {
        assert_eq!(set.count_ones(), 9);
    }
    for i in 0..27 {
        for j in 0..27 {
            if i != j {
                assert_ne!(b.rules.sets[i], b.rules.sets[j]);
            }
        }
    }
}

#[test]
fn zero_candidate_cell_is_illegal() {
    // An empty input stream leaves every cell without candidates.
    let b = Board::from_string(String::new(), classic_rules());
    assert_eq!(b.count_candidates(0), 0);
    assert!(!b.is_legal());
}

#[test]
fn one_blank_cell_zero_candidates_is_illegal() {
    let mut b = Board::from_string(diagonal_puzzle(), classic_rules());
    for d in 0..9 {
        b.candidates[d] &= !(1u128 << 40);
    }
    assert!(!b.is_legal());
}

#[test]
fn full_grid_is_legal_and_solved_after_completion() {
    let mut b = Board::from_string(SOLVED.to_string(), classic_rules());
    assert!(!b.is_solved());
    b.update_cell_complete();
    assert!(b.is_solved());
    assert!(b.is_legal());
}

#[test]
fn short_string_round_trips_a_solved_board() {
    let mut b = Board::from_string(SOLVED.to_string(), classic_rules());
    b.update_cell_complete();
    let text = b.short_string();
    assert_eq!(text, SOLVED);
    let mut reloaded = Board::from_string(text, classic_rules());
    assert!(reloaded == b);
    reloaded.update_cell_complete();
    assert!(reloaded.is_solved());
}

#[test]
fn short_string_marks_open_and_dead_cells() {
    let mut b = empty_board();
    let s = b.short_string();
    assert_eq!(s.len(), 81);
    assert!(s.chars().all(|c| c == '_'));
    for d in 0..9 {
        b.candidates[d] &= !(1u128 << 5);
    }
    b.set_cell(2, 7);
    let s2 = b.short_string();
    assert_eq!(&s2[5..6], "X");
    assert_eq!(&s2[7..8], "3");
}

#[test]
fn hidden_naked_singles_force_a_confined_digit() {
    let mut b = empty_board();
    // Confine digit 1 ('2') within row 0 to cell 0.
    for cell in 1..9u8 {
        b.candidates[1] &= !(1u128 << cell);
    }
    let changed = b.hidden_naked_singles_pairs_triples();
    assert!(changed);
    assert_eq!(b.candidates_vec(0), vec![1]);
    // Cells outside row 0 keep all nine digits.
    assert_eq!(b.count_candidates(9), 9);
}

#[test]
fn hidden_singles_force_a_confined_digit_among_incomplete() {
    let mut b = empty_board();
    for cell in 1..9u8 {
        b.candidates[4] &= !(1u128 << cell);
    }
    let changed = b.hidden_singles();
    assert!(changed);
    assert_eq!(b.candidates_vec(0), vec![4]);
}

/// Two different digits confined to the same cell is already a
/// contradiction; the pass keeps exactly one of them there.
#[test]
fn conflicting_confinements_keep_one_digit() {
    let mut b = empty_board();
    for cell in 1..9u8 {
        b.candidates[0] &= !(1u128 << cell);
        b.candidates[1] &= !(1u128 << cell);
    }
    let changed = b.hidden_naked_singles_pairs_triples();
    assert!(changed);
    assert_eq!(b.candidates_vec(0), vec![1]);
}

#[test]
fn deduction_reports_no_change_on_a_stuck_board() {
    let mut b = empty_board();
    assert!(!b.hidden_naked_singles_pairs_triples());
    assert!(!b.hidden_singles());
}

#[test]
fn mrv_picks_the_two_candidate_cell_first() {
    let mut b = empty_board();
    for d in 2..9 {
        b.candidates[d] &= !(1u128 << 40);
    }
    let (index, count) = b.find_lowest_candidates_unsolved();
    assert_eq!(index, 40);
    assert_eq!(count, 2);
}

#[test]
fn mrv_breaks_ties_by_lowest_index() {
    let mut b = empty_board();
    for d in 3..9 {
        b.candidates[d] &= !(1u128 << 50);
        b.candidates[d] &= !(1u128 << 12);
    }
    let (index, count) = b.find_lowest_candidates_unsolved();
    assert_eq!(index, 12);
    assert_eq!(count, 3);
}
