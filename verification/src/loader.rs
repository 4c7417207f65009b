//! The symbol loader and the compact board text.
//!
//! An input stream pins digits or leaves cells open; the first 81 accepted
//! symbols fill the grid and, in color mode, the next 81 build six extra
//! groups.  [`parse_chars`] is the specification of that process, and
//! `Board::from_string` is proved to implement it character by character.

use vstd::prelude::*;

use crate::bits::get_bit;
use crate::bits::group_bit_lemmas;
use crate::bits::wf81;
use crate::solver::lemma_count_digits_one;
use crate::solver::Board;
use crate::solver::Rules;

verus! {

broadcast use group_bit_lemmas;

/// A symbol that leaves every digit open in its cell.
pub open spec fn is_placeholder(ch: char) -> bool {
    ch == '-' || ch == '0' || ch == '*' || ch == '.' || ch == '_'
}

/// A symbol that pins one digit.
pub open spec fn is_digit_sym(ch: char) -> bool {
    0x31 <= ch as u32 && ch as u32 <= 0x39
}

/// The 0-based digit a digit symbol pins.
pub open spec fn digit_val(ch: char) -> int {
    ch as u32 - 0x31
}

/// Position of a color symbol in the fixed color order, or -1.
pub open spec fn color_index(ch: char) -> int {
    if ch == 'R' {
        0
    } else if ch == 'O' {
        1
    } else if ch == 'Y' {
        2
    } else if ch == 'G' {
        3
    } else if ch == 'B' {
        4
    } else if ch == 'W' {
        5
    } else {
        -1
    }
}

/// A color-layer symbol that takes a slot without naming a color.
pub open spec fn is_color_skip(ch: char) -> bool {
    ch == 'X' || ch == '*' || ch == '.' || ch == '_'
}

/// The loader's running state: accepted symbols so far, the nine candidate
/// masks, and the six color masks.
pub struct ParseState {
    pub idx: int,
    pub cand: Seq<u128>,
    pub colors: Seq<u128>,
}

/// How one input symbol advances the loader.
pub open spec fn parse_step(st: ParseState, ch: char, rubiks: bool) -> ParseState {
    if st.idx < 81 {
        if is_placeholder(ch) {
            ParseState {
                idx: st.idx + 1,
                cand: Seq::new(9, |d: int| st.cand[d] | (1u128 << (st.idx as u128))),
                colors: st.colors,
            }
        } else if is_digit_sym(ch) {
            ParseState {
                idx: st.idx + 1,
                cand: st.cand.update(
                    digit_val(ch),
                    st.cand[digit_val(ch)] | (1u128 << (st.idx as u128)),
                ),
                colors: st.colors,
            }
        } else {
            st
        }
    } else if rubiks {
        if color_index(ch) >= 0 {
            if st.idx - 81 < 81 {
                ParseState {
                    idx: st.idx + 1,
                    cand: st.cand,
                    colors: st.colors.update(
                        color_index(ch),
                        st.colors[color_index(ch)] | (1u128 << ((st.idx - 81) as u128)),
                    ),
                }
            } else {
                ParseState { idx: st.idx + 1, cand: st.cand, colors: st.colors }
            }
        } else if is_color_skip(ch) {
            ParseState { idx: st.idx + 1, cand: st.cand, colors: st.colors }
        } else {
            st
        }
    } else {
        ParseState { idx: st.idx + 1, cand: st.cand, colors: st.colors }
    }
}

/// The loader's state before any input.
pub open spec fn parse_init() -> ParseState {
    ParseState { idx: 0, cand: Seq::new(9, |d: int| 0u128), colors: Seq::new(6, |c: int| 0u128) }
}

/// The symbol of a 0-based digit.
pub open spec fn digit_char(d: int) -> char {
    if d == 0 {
        '1'
    } else if d == 1 {
        '2'
    } else if d == 2 {
        '3'
    } else if d == 3 {
        '4'
    } else if d == 4 {
        '5'
    } else if d == 5 {
        '6'
    } else if d == 6 {
        '7'
    } else if d == 7 {
        '8'
    } else {
        '9'
    }
}

/// Some digit still possible in cell `i`; the digit when only one is left.
pub open spec fn sole_digit(b: Board, i: int) -> int {
    choose|d: int| 0 <= d < 9 && b.cand(d, i)
}

/// The compact text of one cell: its digit when exactly one candidate
/// remains, 'X' when none does, '_' otherwise.
pub open spec fn encode_cell(b: Board, i: int) -> char {
    if b.cell_count(i) == 0 {
        'X'
    } else if b.cell_count(i) == 1 {
        digit_char(sole_digit(b, i))
    } else {
        '_'
    }
}

/// The loader's state after the whole input.
pub open spec fn parse_chars(s: Seq<char>, rubiks: bool) -> ParseState
    decreases s.len(),
{
    if s.len() == 0 {
        parse_init()
    } else {
        parse_step(parse_chars(s.drop_last(), rubiks), s.last(), rubiks)
    }
}

/// The loader state is structurally sound: the index never shrinks and the
/// masks stay inside their 81 cells.
pub proof fn lemma_parse_chars_wf(s: Seq<char>, rubiks: bool)
    ensures
        parse_chars(s, rubiks).idx >= 0,
        parse_chars(s, rubiks).cand.len() == 9,
        parse_chars(s, rubiks).colors.len() == 6,
        forall|d: int| 0 <= d < 9 ==> wf81(#[trigger] parse_chars(s, rubiks).cand[d]),
        forall|c: int| 0 <= c < 6 ==> wf81(#[trigger] parse_chars(s, rubiks).colors[c]),
    decreases s.len(),
{
    if s.len() == 0 {
        assert forall|d: int| 0 <= d < 9 implies wf81(#[trigger] parse_init().cand[d]) by {
            assert forall|i: u128| 81 <= i < 128 implies !get_bit(parse_init().cand[d], i) by {
                assert(parse_init().cand[d] == 0u128);
                assert(!get_bit(0u128, i));
            }
        }
        assert forall|c: int| 0 <= c < 6 implies wf81(#[trigger] parse_init().colors[c]) by {
            assert forall|i: u128| 81 <= i < 128 implies !get_bit(parse_init().colors[c], i) by {
                assert(parse_init().colors[c] == 0u128);
                assert(!get_bit(0u128, i));
            }
        }
    } else {
        lemma_parse_chars_wf(s.drop_last(), rubiks);
        let st = parse_chars(s.drop_last(), rubiks);
        let st2 = parse_chars(s, rubiks);
        assert(st2 == parse_step(st, s.last(), rubiks));
        assert forall|d: int| 0 <= d < 9 implies wf81(#[trigger] st2.cand[d]) by {
            assert forall|i: u128| 81 <= i < 128 implies !get_bit(st2.cand[d], i) by {
                assert(!get_bit(st.cand[d], i));
                if st.idx < 81 {
                    assert(!get_bit(1u128 << (st.idx as u128), i));
                }
            }
        }
        assert forall|c: int| 0 <= c < 6 implies wf81(#[trigger] st2.colors[c]) by {
            assert forall|i: u128| 81 <= i < 128 implies !get_bit(st2.colors[c], i) by {
                assert(!get_bit(st.colors[c], i));
                if st.idx >= 81 && st.idx - 81 < 81 {
                    assert(!get_bit(1u128 << ((st.idx - 81) as u128), i));
                }
            }
        }
    }
}

/// Unrolling the parse by one character from the front of what remains.
pub proof fn lemma_parse_chars_snoc(s: Seq<char>, n: int, rubiks: bool)
    requires
        0 <= n < s.len(),
    ensures
        parse_chars(s.take(n + 1), rubiks) == parse_step(
            parse_chars(s.take(n), rubiks),
            s[n],
            rubiks,
        ),
{
    assert(s.take(n + 1).drop_last() =~= s.take(n));
    assert(s.take(n + 1).last() == s[n]);
}

impl Board {
    /// Builds a board from an input stream of cell symbols, with the color
    /// layer appended as extra groups when color rules are on.  Unknown
    /// symbols are ignored; a short stream leaves the remaining cells with
    /// no candidates.
    pub fn from_string(s: String, rules: Rules) -> (b: Board)
        requires
            forall|k: int|
                0 <= k < rules.sets@.len() ==> wf81(#[trigger] rules.sets@[k])
                    && crate::bits::count_bits(rules.sets@[k], 81) == 9,
        ensures
            b.wf(),
            b.cell_complete == 0,
            b.rules.normal_sudoku == rules.normal_sudoku,
            b.rules.rubiks == rules.rubiks,
            forall|d: int| 0 <= d < 9 ==> #[trigger] b.candidates[d] == parse_chars(
                s@,
                rules.rubiks,
            ).cand[d],
            b.groups().len() == rules.sets@.len() + (if rules.normal_sudoku {
                27int
            } else {
                0int
            }) + (if rules.rubiks {
                6int
            } else {
                0int
            }),
            forall|k: int| 0 <= k < rules.sets@.len() ==> #[trigger] b.groups()[k]
                == rules.sets@[k],
            rules.normal_sudoku ==> forall|g: int, i: int|
                0 <= g < 27 && 0 <= i < 81 ==> #[trigger] get_bit(
                    b.groups()[rules.sets@.len() + g],
                    i as u128,
                ) == crate::groups::classic_member(g, i),
            rules.rubiks ==> forall|c: int|
                0 <= c < 6 ==> #[trigger] b.groups()[b.groups().len() - 6 + c] == parse_chars(
                    s@,
                    rules.rubiks,
                ).colors[c],
            rules.rubiks ==> (b.rubiks_sets matches Some(arr) && forall|c: int|
                0 <= c < 6 ==> #[trigger] arr[c] == parse_chars(s@, rules.rubiks).colors[c]),
            !rules.rubiks ==> b.rubiks_sets is None,
    {
        let ghost base = rules.sets@.len() as int;
        let ghost rubiks = rules.rubiks;
        let mut b = Board::new(rules);
        let ghost after_new = b;
        b.candidates = [0, 0, 0, 0, 0, 0, 0, 0, 0];
        let mut colors: [u128; 6] = [0, 0, 0, 0, 0, 0];
        let n = s.as_str().unicode_len();
        let mut i: usize = 0;
        let mut idx: usize = 0;
        proof {
            assert(s@.take(0) =~= Seq::<char>::empty());
            assert forall|d: int| 0 <= d < 9 implies #[trigger] b.candidates[d] == parse_chars(
                s@.take(0),
                rubiks,
            ).cand[d] by {
                assert(parse_chars(s@.take(0), rubiks).cand[d] == 0u128);
            }
            assert forall|c: int| 0 <= c < 6 implies #[trigger] colors[c] == parse_chars(
                s@.take(0),
                rubiks,
            ).colors[c] by {
                assert(parse_chars(s@.take(0), rubiks).colors[c] == 0u128);
            }
        }
        while i < n
            invariant
                i <= n,
                n == s@.len(),
                rubiks == b.rules.rubiks,
                idx == parse_chars(s@.take(i as int), rubiks).idx,
                idx <= i,
                forall|d: int| 0 <= d < 9 ==> #[trigger] b.candidates[d] == parse_chars(
                    s@.take(i as int),
                    rubiks,
                ).cand[d],
                forall|c: int| 0 <= c < 6 ==> #[trigger] colors[c] == parse_chars(
                    s@.take(i as int),
                    rubiks,
                ).colors[c],
                b.cell_complete == after_new.cell_complete,
                b.rules == after_new.rules,
                b.rubiks_sets == after_new.rubiks_sets,
            decreases n - i,
        {
            let ch = s.as_str().get_char(i);
            let ghost st = parse_chars(s@.take(i as int), rubiks);
            let ghost pre = b;
            let ghost colors_pre = colors;
            let ghost idx0 = idx as int;
            if idx >= 81 {
                if b.rules.rubiks {
                    let ci: usize = if ch == 'R' {
                        0
                    } else if ch == 'O' {
                        1
                    } else if ch == 'Y' {
                        2
                    } else if ch == 'G' {
                        3
                    } else if ch == 'B' {
                        4
                    } else if ch == 'W' {
                        5
                    } else {
                        6
                    };
                    if ci < 6 {
                        if idx - 81 < 81 {
                            let off: usize = idx - 81;
                            let m = colors[ci];
                            colors[ci] = m | (1u128 << (off as u128));
                        }
                        idx = idx + 1;
                    } else if ch == 'X' || ch == '*' || ch == '.' || ch == '_' {
                        idx = idx + 1;
                    }
                } else {
                    idx = idx + 1;
                }
            } else {
                if ch == '-' || ch == '0' || ch == '*' || ch == '.' || ch == '_' {
                    let mut d: usize = 0;
                    while d < 9
                        invariant
                            d <= 9,
                            idx < 81,
                            forall|e: int| 0 <= e < d ==> #[trigger] b.candidates[e] == (
                            pre.candidates[e] | (1u128 << (idx as u128))),
                            forall|e: int| d <= e < 9 ==> #[trigger] b.candidates[e]
                                == pre.candidates[e],
                            b.cell_complete == pre.cell_complete,
                            b.rules == pre.rules,
                            b.rubiks_sets == pre.rubiks_sets,
                        decreases 9 - d,
                    {
                        let m = b.candidates[d];
                        b.candidates[d] = m | (1u128 << (idx as u128));
                        d = d + 1;
                    }
                    idx = idx + 1;
                } else {
                    let cv = ch as u32;
                    if cv >= 0x31 && cv <= 0x39 {
                        let dv: usize = (cv - 0x31) as usize;
                        let m = b.candidates[dv];
                        b.candidates[dv] = m | (1u128 << (idx as u128));
                        idx = idx + 1;
                    }
                }
            }
            proof {
                lemma_parse_chars_wf(s@.take(i as int), rubiks);
                lemma_parse_chars_wf(s@.take(i as int + 1), rubiks);
                lemma_parse_chars_snoc(s@, i as int, rubiks);
                let chg = s@[i as int];
                let st2 = parse_step(st, chg, rubiks);
                assert(parse_chars(s@.take(i as int + 1), rubiks) == st2);
                assert(st.idx == idx0);
                assert forall|d: int| 0 <= d < 9 implies #[trigger] b.candidates[d]
                    == st2.cand[d] by {
                    assert(st.cand[d] == pre.candidates[d]);
                    if st.idx < 81 {
                        if is_placeholder(chg) {
                            assert(b.candidates[d] == (pre.candidates[d] | (1u128 << (
                            idx0 as u128))));
                            assert(st2.cand[d] == (st.cand[d] | (1u128 << (st.idx as u128))));
                        } else if is_digit_sym(chg) {
                            if d == digit_val(chg) {
                                assert(b.candidates[d] == (pre.candidates[d] | (1u128 << (
                                idx0 as u128))));
                            } else {
                                assert(b.candidates[d] == pre.candidates[d]);
                            }
                        } else {
                            assert(b.candidates[d] == pre.candidates[d]);
                        }
                    } else {
                        assert(b.candidates[d] == pre.candidates[d]);
                    }
                }
                assert forall|c2: int| 0 <= c2 < 6 implies #[trigger] colors[c2]
                    == st2.colors[c2] by {
                    assert(st.colors[c2] == colors_pre[c2]);
                    if st.idx >= 81 && rubiks && color_index(chg) >= 0 && st.idx - 81 < 81 {
                        if c2 == color_index(chg) {
                            assert(colors[c2] == (colors_pre[c2] | (1u128 << ((idx0
                                - 81) as u128))));
                        } else {
                            assert(colors[c2] == colors_pre[c2]);
                        }
                    } else {
                        assert(colors[c2] == colors_pre[c2]);
                    }
                }
                assert(idx as int == st2.idx);
            }
            i = i + 1;
        }
        let ghost cand_after_load = b.candidates;
        if b.rules.rubiks {
            let ghost sets_pre = b.rules.sets@;
            let mut c: usize = 0;
            while c < 6
                invariant
                    c <= 6,
                    b.rules.sets@.len() == sets_pre.len() + c,
                    forall|k: int| 0 <= k < sets_pre.len() ==> #[trigger] b.rules.sets@[k]
                        == sets_pre[k],
                    forall|k: int| 0 <= k < c ==> #[trigger] b.rules.sets@[sets_pre.len() + k]
                        == colors[k],
                    b.rules.normal_sudoku == after_new.rules.normal_sudoku,
                    b.rules.rubiks == after_new.rules.rubiks,
                    b.cell_complete == after_new.cell_complete,
                    b.candidates == cand_after_load,
                    b.rubiks_sets == after_new.rubiks_sets,
                decreases 6 - c,
            {
                let ghost sp = b.rules.sets@;
                b.rules.sets.push(colors[c]);
                proof {
                    assert(b.rules.sets@ =~= sp.push(colors[c as int]));
                }
                c = c + 1;
            }
            b.rubiks_sets = Some(colors);
        }
        proof {
            assert(s@.take(n as int) =~= s@);
            let p = parse_chars(s@, rubiks);
            lemma_parse_chars_wf(s@, rubiks);
            assert forall|d: int| 0 <= d < 9 implies #[trigger] b.candidates[d] == p.cand[d] by {}
            assert forall|d: int| 0 <= d < 9 implies wf81(#[trigger] b.candidates[d]) by {
                assert(wf81(p.cand[d]));
            }
            assert(b.cell_complete == 0);
            assert forall|i2: int| 0 <= i2 < 81 implies !b.complete(i2) by {
                assert(!get_bit(0u128, i2 as u128));
            }
            assert forall|k: int| 0 <= k < b.groups().len() implies wf81(
                #[trigger] b.groups()[k],
            ) by {
                if k < after_new.groups().len() {
                    assert(b.groups()[k] == after_new.groups()[k]);
                    assert(wf81(after_new.groups()[k]));
                } else {
                    let c = k - after_new.groups().len();
                    assert(b.groups()[after_new.groups().len() + c] == p.colors[c]);
                    assert(wf81(p.colors[c]));
                }
            }
            assert forall|k: int| 0 <= k < rules.sets@.len() implies #[trigger] b.groups()[k]
                == rules.sets@[k] by {
                assert(b.groups()[k] == after_new.groups()[k]);
            }
            if rules.normal_sudoku {
                assert forall|g: int, i2: int|
                    0 <= g < 27 && 0 <= i2 < 81 implies #[trigger] get_bit(
                    b.groups()[rules.sets@.len() + g],
                    i2 as u128,
                ) == crate::groups::classic_member(g, i2) by {
                    assert(b.groups()[rules.sets@.len() + g] == after_new.groups()[rules.sets@.len()
                        + g]);
                }
            }
        }
        b
    }
}

impl Board {
    /// The 81-character compact text of the board, cell by cell.
    pub fn short_string(&self) -> (r: String)
        ensures
            r@.len() == 81,
            forall|i: int| 0 <= i < 81 ==> #[trigger] r@[i] == encode_cell(*self, i),
    {
        let mut r = String::new();
        let mut i: u8 = 0;
        while i < 81
            invariant
                i <= 81,
                r@.len() == i,
                forall|j: int| 0 <= j < i ==> #[trigger] r@[j] == encode_cell(*self, j),
            decreases 81 - i,
        {
            let ghost rp = r@;
            let v = self.candidates_vec(i);
            if v.len() == 0 {
                r.append("X");
                proof {
                    reveal_strlit("X");
                    assert(r@ == rp + "X"@);
                    assert(r@[i as int] == 'X');
                }
            } else if v.len() == 1 {
                let d = v[0];
                proof {
                    assert(self.cand(d as int, i as int));
                    lemma_count_digits_one(*self, i as int, 9);
                    let w = choose|w: int|
                        0 <= w < 9 && #[trigger] self.cand(w, i as int) && (forall|e: int|
                            0 <= e < 9 && e != w ==> !(#[trigger] self.cand(e, i as int)));
                    assert(w == d as int);
                    assert(sole_digit(*self, i as int) == d as int);
                    assert(encode_cell(*self, i as int) == digit_char(d as int));
                }
                if d == 0 {
                    r.append("1");
                    proof {
                        reveal_strlit("1");
                        assert(r@[i as int] == '1');
                    }
                } else if d == 1 {
                    r.append("2");
                    proof {
                        reveal_strlit("2");
                        assert(r@[i as int] == '2');
                    }
                } else if d == 2 {
                    r.append("3");
                    proof {
                        reveal_strlit("3");
                        assert(r@[i as int] == '3');
                    }
                } else if d == 3 {
                    r.append("4");
                    proof {
                        reveal_strlit("4");
                        assert(r@[i as int] == '4');
                    }
                } else if d == 4 {
                    r.append("5");
                    proof {
                        reveal_strlit("5");
                        assert(r@[i as int] == '5');
                    }
                } else if d == 5 {
                    r.append("6");
                    proof {
                        reveal_strlit("6");
                        assert(r@[i as int] == '6');
                    }
                } else if d == 6 {
                    r.append("7");
                    proof {
                        reveal_strlit("7");
                        assert(r@[i as int] == '7');
                    }
                } else if d == 7 {
                    r.append("8");
                    proof {
                        reveal_strlit("8");
                        assert(r@[i as int] == '8');
                    }
                } else {
                    r.append("9");
                    proof {
                        reveal_strlit("9");
                        assert(r@[i as int] == '9');
                    }
                }
            } else {
                r.append("_");
                proof {
                    reveal_strlit("_");
                    assert(r@[i as int] == '_');
                }
            }
            i = i + 1;
        }
        r
    }
}

/// After any prefix of the compact text of a fully determined board, the
/// loader has pinned exactly that prefix of its cells.
proof fn lemma_parse_digits_prefix(b: Board, s: Seq<char>, rubiks: bool, k: int)
    requires
        b.wf(),
        forall|i: int| 0 <= i < 81 ==> #[trigger] b.cell_count(i) == 1,
        s.len() == 81,
        forall|i: int| 0 <= i < 81 ==> #[trigger] s[i] == encode_cell(b, i),
        0 <= k <= 81,
    ensures
        parse_chars(s.take(k), rubiks).idx == k,
        parse_chars(s.take(k), rubiks).cand.len() == 9,
        forall|d: int, i: u128|
            0 <= d < 9 && i < 128 ==> #[trigger] get_bit(parse_chars(s.take(k), rubiks).cand[d], i)
                == (i < k && b.cand(d, i as int)),
    decreases k,
{
    lemma_parse_chars_wf(s.take(k), rubiks);
    if k == 0 {
        assert(s.take(0) =~= Seq::<char>::empty());
        assert forall|d: int, i: u128|
            0 <= d < 9 && i < 128 implies #[trigger] get_bit(
            parse_chars(s.take(0), rubiks).cand[d],
            i,
        ) == (i < 0 && b.cand(d, i as int)) by {
            assert(parse_chars(s.take(0), rubiks).cand[d] == 0u128);
            assert(!get_bit(0u128, i));
        }
    } else {
        lemma_parse_digits_prefix(b, s, rubiks, k - 1);
        lemma_parse_chars_snoc(s, k - 1, rubiks);
        let prev = parse_chars(s.take(k - 1), rubiks);
        let cur = parse_chars(s.take(k), rubiks);
        let ch = s[k - 1];
        assert(b.cell_count(k - 1) == 1);
        lemma_count_digits_one(b, k - 1, 9);
        let w = choose|w: int|
            0 <= w < 9 && #[trigger] b.cand(w, k - 1) && (forall|e: int|
                0 <= e < 9 && e != w ==> !(#[trigger] b.cand(e, k - 1)));
        assert(sole_digit(b, k - 1) == w);
        assert(ch == digit_char(w));
        assert(is_digit_sym(ch) && digit_val(ch) == w);
        assert(!is_placeholder(ch));
        assert(cur == parse_step(prev, ch, rubiks));
        assert(cur.cand == prev.cand.update(w, prev.cand[w] | (1u128 << ((k - 1) as u128))));
        assert forall|d: int, i: u128|
            0 <= d < 9 && i < 128 implies #[trigger] get_bit(cur.cand[d], i) == (i < k && b.cand(
            d,
            i as int,
        )) by {
            if d == w {
                assert(cur.cand[d] == (prev.cand[w] | (1u128 << ((k - 1) as u128))));
                if i == (k - 1) as u128 {
                    assert(b.cand(d, i as int));
                }
            } else {
                assert(cur.cand[d] == prev.cand[d]);
                if i == (k - 1) as u128 {
                    assert(!b.cand(d, i as int));
                }
            }
        }
    }
}

/// Round trip: the compact text of a fully determined board, fed back to the
/// loader, reproduces exactly the same candidate masks.
pub proof fn lemma_short_string_round_trip(b: Board, s: Seq<char>, rubiks: bool)
    requires
        b.wf(),
        forall|i: int| 0 <= i < 81 ==> #[trigger] b.cell_count(i) == 1,
        s.len() == 81,
        forall|i: int| 0 <= i < 81 ==> #[trigger] s[i] == encode_cell(b, i),
    ensures
        forall|d: int| 0 <= d < 9 ==> #[trigger] parse_chars(s, rubiks).cand[d] == b.candidates[d],
{
    lemma_parse_digits_prefix(b, s, rubiks, 81);
    assert(s.take(81) =~= s);
    assert forall|d: int| 0 <= d < 9 implies #[trigger] parse_chars(s, rubiks).cand[d]
        == b.candidates[d] by {
        assert forall|i: u128| i < 128 implies get_bit(parse_chars(s, rubiks).cand[d], i)
            == get_bit(b.candidates[d], i) by {
            assert(get_bit(parse_chars(s.take(81), rubiks).cand[d], i) == (i < 81 && b.cand(
                d,
                i as int,
            )));
            if i >= 81 {
                assert(!get_bit(b.candidates[d], i));
            }
        }
        crate::bits::lemma_bit_ext(parse_chars(s, rubiks).cand[d], b.candidates[d]);
    }
}


} // verus!
