use sudoku_solver::solver::Board;
use sudoku_solver::solver::Rules;

const SOLVED: &str =
    "123456789456789123789123456234567891567891234891234567345678912678912345912345678";

fn classic_rules() -> Rules {
    Rules { normal_sudoku: true, rubiks: false, sets: vec![] }
}

fn diagonal_puzzle() -> String {
    let mut chars: Vec<char> = SOLVED.chars().collect();
    for r in 0..9 {
        chars[r * 9 + r] = '-';
    }
    chars.into_iter().collect()
}

fn empty_puzzle() -> String {
    std::iter::repeat('-').take(81).collect()
}

/// Scenario: a puzzle with one known solution comes back as exactly one,
/// and the witness satisfies all 27 group constraints.
#[test]
fn unique_solution_returns_one_with_a_valid_witness() {
    let mut b = Board::from_string(diagonal_puzzle(), classic_rules());
    let mut recursion_count: u128 = 0;
    let code = b.solve(&mut recursion_count, false);
    assert_eq!(code, 1);
    assert!(b.is_solved());
    assert!(b.is_legal());
    let text = b.short_string();
    assert_eq!(text, SOLVED);
    let digits: Vec<u32> = text.chars().map(|c| c.to_digit(10).unwrap()).collect();
    for set in &b.rules.sets {
        let mut seen = [false; 10];
        for cell in 0..81 {
            if (set >> cell) & 1 == 1 {
                let v = digits[cell] as usize;
                assert!(!seen[v], "digit repeated inside a group");
                seen[v] = true;
            }
        }
        for v in 1..10 {
            assert!(seen[v], "digit missing from a group");
        }
    }
}

/// Scenario: two copies of the same digit pre-placed in one row is a
/// contradiction.
#[test]
fn duplicate_in_row_returns_zero() {
    let mut puzzle: Vec<char> = empty_puzzle().chars().collect();
    puzzle[0] = '1';
    puzzle[1] = '1';
    let s: String = puzzle.into_iter().collect();
    let mut b = Board::from_string(s, classic_rules());
    let mut recursion_count: u128 = 0;
    assert_eq!(b.solve(&mut recursion_count, false), 0);
}

/// A duplicate down one column is caught the same way.
#[test]
fn duplicate_in_column_returns_zero() {
    let mut puzzle: Vec<char> = empty_puzzle().chars().collect();
    puzzle[0] = '7';
    puzzle[9] = '7';
    let s: String = puzzle.into_iter().collect();
    let mut b = Board::from_string(s, classic_rules());
    let mut recursion_count: u128 = 0;
    assert_eq!(b.solve(&mut recursion_count, false), 0);
}

/// A short input stream leaves candidate-less cells, which is unsolvable;
/// the legality check fires before anything is touched.
#[test]
fn truncated_input_returns_zero() {
    let mut b = Board::from_string("123".to_string(), classic_rules());
    let before = b.short_string();
    let mut recursion_count: u128 = 0;
    assert_eq!(b.solve(&mut recursion_count, false), 0);
    assert_eq!(recursion_count, 0);
    assert_eq!(b.short_string(), before);
}

/// Scenario: the empty grid has many completions; both with and without
/// branch suppression the answer is "more than one".
#[test]
fn empty_grid_returns_two_with_branching() {
    let mut b = Board::from_string(empty_puzzle(), classic_rules());
    let mut recursion_count: u128 = 0;
    assert_eq!(b.solve(&mut recursion_count, false), 2);
    // No witness board is adopted.
    assert!(!b.is_solved());
}

#[test]
fn empty_grid_returns_two_when_branching_is_suppressed() {
    let mut b = Board::from_string(empty_puzzle(), classic_rules());
    let mut recursion_count: u128 = 0;
    assert_eq!(b.solve(&mut recursion_count, true), 2);
    // Suppressed branching explores nothing and adopts no witness.
    assert_eq!(recursion_count, 0);
    assert!(!b.is_solved());
    assert!(b.short_string().chars().all(|c| c == '_'));
}

/// Scenario: a tiny remaining branch budget on a puzzle that needs
/// branching is reported as budget exhaustion.
#[test]
fn tiny_branch_budget_returns_three() {
    let mut b = Board::from_string(empty_puzzle(), classic_rules());
    let mut recursion_count: u128 = 9999;
    assert_eq!(b.solve(&mut recursion_count, false), 3);
    assert!(recursion_count >= 10000);
}

#[test]
fn exhausted_budget_returns_three_at_once() {
    let mut b = Board::from_string(diagonal_puzzle(), classic_rules());
    let before = b.short_string();
    let mut recursion_count: u128 = 10000;
    assert_eq!(b.solve(&mut recursion_count, false), 3);
    assert_eq!(recursion_count, 10000);
    assert_eq!(b.short_string(), before);
}

/// A puzzle that propagation alone cannot finish is still classified, and
/// the counter grows only when branches are tried.
#[test]
fn branching_puzzle_counts_attempts() {
    // Keep only the first three rows of the solved grid.
    let mut chars: Vec<char> = SOLVED.chars().collect();
    for i in 27..81 {
        chars[i] = '-';
    }
    let s: String = chars.into_iter().collect();
    let mut b = Board::from_string(s, classic_rules());
    let mut recursion_count: u128 = 0;
    let code = b.solve(&mut recursion_count, false);
    assert_eq!(code, 2);
    assert!(recursion_count > 0);
}

#[test]
fn solved_grid_solves_without_branching() {
    let mut b = Board::from_string(SOLVED.to_string(), classic_rules());
    let mut recursion_count: u128 = 0;
    assert_eq!(b.solve(&mut recursion_count, false), 1);
    assert_eq!(recursion_count, 0);
}

/// The color layer builds six extra groups and keeps them for rendering.
#[test]
fn color_layer_appends_six_groups() {
    let mut text = empty_puzzle();
    // Nine cells of each color, column by column pair; only the first 81
    // color symbols are taken.
    let colors = ['R', 'O', 'Y', 'G', 'B', 'W'];
    for c in 0..6 {
        for _ in 0..9 {
            text.push(colors[c]);
        }
    }
    text.push_str("...........................");
    let rules = Rules { normal_sudoku: true, rubiks: true, sets: vec![] };
    let b = Board::from_string(text, rules);
    assert_eq!(b.rules.sets.len(), 27 + 6);
    let tail = &b.rules.sets[27..];
    for (c, set) in tail.iter().enumerate() {
        assert_eq!(set.count_ones(), 9);
        assert_eq!(*set, 0x1FFu128 << (9 * c));
    }
    assert_eq!(b.rubiks_sets, Some([
        0x1FFu128,
        0x1FFu128 << 9,
        0x1FFu128 << 18,
        0x1FFu128 << 27,
        0x1FFu128 << 36,
        0x1FFu128 << 45,
    ]));
}

/// Symbols outside the accepted alphabet are skipped without taking a slot.
#[test]
fn unknown_symbols_are_ignored() {
    let mut s = String::from("5");
    s.push('\n');
    s.push_str("3");
    let b = Board::from_string(s, classic_rules());
    assert_eq!(b.candidates_vec(0), vec![4]);
    assert_eq!(b.candidates_vec(1), vec![2]);
}
