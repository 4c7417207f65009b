//! Construction of the classic constraint groups: 9 rows, 9 columns and 9
//! boxes, each a mask of exactly nine cells.

use vstd::prelude::*;

use crate::bits::count_bits;
use crate::bits::get_bit;
use crate::bits::group_bit_lemmas;
use crate::bits::lemma_count_bits_add_bit;
use crate::bits::popcount81;
use crate::bits::wf81;
use crate::solver::Board;
use crate::solver::Rules;
use crate::solver::CELLS_ALL;

verus! {

broadcast use group_bit_lemmas;

/// Cell `i` belongs to classic group `g`: group `2a` is row `a`, group
/// `2a + 1` is column `a`, and groups 18 to 26 are the boxes in row-major
/// order.
pub open spec fn classic_member(g: int, i: int) -> bool {
    if g < 18 {
        if g % 2 == 0 {
            i / 9 == g / 2
        } else {
            i % 9 == g / 2
        }
    } else {
        (i / 9) / 3 == (g - 18) / 3 && (i % 9) / 3 == (g - 18) % 3
    }
}

/// The `u`-th cell of box `g` (both in row-major order).
pub open spec fn box_cell(g: int, u: int) -> int {
    27 * (g / 3) + 9 * (u / 3) + 3 * (g % 3) + u % 3
}

/// Distinct classic groups differ on some cell.
pub proof fn lemma_classic_groups_distinct(g1: int, g2: int)
    requires
        0 <= g1 < 27,
        0 <= g2 < 27,
        g1 != g2,
    ensures
        exists|i: int| 0 <= i < 81 && #[trigger] classic_member(g1, i) != classic_member(g2, i),
{
    if g1 < 18 && g2 < 18 && g1 % 2 == 0 && g2 % 2 == 0 {
        let i = 9 * (g1 / 2);
        assert(0 <= i < 81 && classic_member(g1, i) != classic_member(g2, i));
    } else if g1 < 18 && g2 < 18 && g1 % 2 == 1 && g2 % 2 == 1 {
        let i = g1 / 2;
        assert(0 <= i < 81 && classic_member(g1, i) != classic_member(g2, i));
    } else if g1 < 18 && g2 < 18 && g1 % 2 == 0 && g2 % 2 == 1 {
        let i = 9 * (g1 / 2) + ((g2 / 2 + 1) % 9);
        assert(0 <= i < 81 && classic_member(g1, i) != classic_member(g2, i));
    } else if g1 < 18 && g2 < 18 {
        let i = 9 * (g2 / 2) + ((g1 / 2 + 1) % 9);
        assert(0 <= i < 81 && classic_member(g1, i) != classic_member(g2, i));
    } else if g1 < 18 && g1 % 2 == 0 {
        let bc = (g2 - 18) % 3;
        let i = 9 * (g1 / 2) + ((3 * bc + 3) % 9);
        assert(0 <= i < 81 && classic_member(g1, i) != classic_member(g2, i));
    } else if g1 < 18 {
        let br = (g2 - 18) / 3;
        let i = 9 * ((3 * br + 3) % 9) + g1 / 2;
        assert(0 <= i < 81 && classic_member(g1, i) != classic_member(g2, i));
    } else if g2 < 18 && g2 % 2 == 0 {
        let bc = (g1 - 18) % 3;
        let i = 9 * (g2 / 2) + ((3 * bc + 3) % 9);
        assert(0 <= i < 81 && classic_member(g1, i) != classic_member(g2, i));
    } else if g2 < 18 {
        let br = (g1 - 18) / 3;
        let i = 9 * ((3 * br + 3) % 9) + g2 / 2;
        assert(0 <= i < 81 && classic_member(g1, i) != classic_member(g2, i));
    } else {
        let i = 27 * ((g1 - 18) / 3) + 3 * ((g1 - 18) % 3);
        assert(0 <= i < 81 && classic_member(g1, i) != classic_member(g2, i));
    }
}

/// A board built by `Board::new` under classic rules carries pairwise
/// distinct group masks: 27 distinct groups over an empty starting list.
pub proof fn lemma_classic_rules_distinct(b: Board, base: int)
    requires
        0 <= base,
        base + 27 <= b.groups().len(),
        forall|g: int, i: int|
            0 <= g < 27 && 0 <= i < 81 ==> #[trigger] get_bit(b.groups()[base + g], i as u128)
                == classic_member(g, i),
    ensures
        forall|k1: int, k2: int|
            base <= k1 < base + 27 && base <= k2 < base + 27 && k1 != k2 ==> b.groups()[k1]
                != b.groups()[k2],
{
    assert forall|k1: int, k2: int|
        base <= k1 < base + 27 && base <= k2 < base + 27 && k1 != k2 implies b.groups()[k1]
        != b.groups()[k2] by {
        let gg1 = k1 - base;
        let gg2 = k2 - base;
        lemma_classic_groups_distinct(gg1, gg2);
        let i = choose|i: int|
            0 <= i < 81 && #[trigger] classic_member(gg1, i) != classic_member(gg2, i);
        assert(get_bit(b.groups()[base + gg1], i as u128) == classic_member(gg1, i));
        assert(get_bit(b.groups()[base + gg2], i as u128) == classic_member(gg2, i));
        assert(get_bit(b.groups()[k1], i as u128) != get_bit(b.groups()[k2], i as u128));
    }
}

impl Rules {
    /// Whether every group mask covers exactly nine cells and no bit outside
    /// the board; `Board::new` expects this of the groups it is handed.
    pub fn groups_valid(&self) -> (r: bool)
        ensures
            r == (forall|k: int|
                0 <= k < self.sets@.len() ==> wf81(#[trigger] self.sets@[k]) && count_bits(
                    self.sets@[k],
                    81,
                ) == 9),
    {
        let mut k: usize = 0;
        let n = self.sets.len();
        while k < n
            invariant
                k <= n,
                n == self.sets@.len(),
                forall|k2: int|
                    0 <= k2 < k ==> wf81(#[trigger] self.sets@[k2]) && count_bits(self.sets@[k2], 81)
                        == 9,
            decreases n - k,
        {
            let set = self.sets[k];
            proof {
                assert(forall|i: u128| i < 128 ==> #[trigger] get_bit(CELLS_ALL, i) == (i < 81))
                    by (bit_vector);
                assert(set <= CELLS_ALL ==> wf81(set)) by {
                    if set <= CELLS_ALL {
                        assert forall|i: u128| 81 <= i < 128 implies !get_bit(set, i) by {
                            assert(set <= CELLS_ALL && 81 <= i && i < 128 ==> !get_bit(set, i))
                                by (bit_vector);
                        }
                    }
                }
                if wf81(set) {
                    assert forall|i: u128| i < 128 implies get_bit(set & !CELLS_ALL, i) == get_bit(
                        0u128,
                        i,
                    ) by {
                        if i < 81 {
                            assert(!get_bit(!CELLS_ALL, i));
                        } else {
                            assert(!get_bit(set, i));
                        }
                    }
                    crate::bits::lemma_bit_ext(set & !CELLS_ALL, 0);
                    assert((set & !CELLS_ALL) == 0 ==> set <= CELLS_ALL) by (bit_vector);
                }
            }
            if set > CELLS_ALL {
                return false;
            }
            if popcount81(set) != 9 {
                return false;
            }
            k = k + 1;
        }
        true
    }
}

impl Board {
    /// A fresh board with every digit possible everywhere; under classic
    /// rules the 27 row, column and box groups are appended to the given
    /// ones.  Every group handed in must already cover exactly nine cells.
    pub fn new(rules: Rules) -> (b: Board)
        requires
            forall|k: int|
                0 <= k < rules.sets@.len() ==> wf81(#[trigger] rules.sets@[k]) && count_bits(
                    rules.sets@[k],
                    81,
                ) == 9,
        ensures
            b.wf(),
            b.rules.normal_sudoku == rules.normal_sudoku,
            b.rules.rubiks == rules.rubiks,
            b.rubiks_sets is None,
            b.cell_complete == 0,
            forall|d: int| 0 <= d < 9 ==> #[trigger] b.candidates[d] == CELLS_ALL,
            forall|d: int, i: int| 0 <= d < 9 && 0 <= i < 81 ==> #[trigger] b.cand(d, i),
            b.groups().len() == rules.sets@.len() + if rules.normal_sudoku {
                27int
            } else {
                0int
            },
            forall|k: int| 0 <= k < rules.sets@.len() ==> #[trigger] b.groups()[k]
                == rules.sets@[k],
            rules.normal_sudoku ==> forall|g: int, i: int|
                0 <= g < 27 && 0 <= i < 81 ==> #[trigger] get_bit(
                    b.groups()[rules.sets@.len() + g],
                    i as u128,
                ) == classic_member(g, i),
            forall|k: int|
                0 <= k < b.groups().len() ==> wf81(#[trigger] b.groups()[k]) && count_bits(
                    b.groups()[k],
                    81,
                ) == 9,
    {
        let ghost base = rules.sets@.len() as int;
        let ghost orig = rules.sets@;
        let mut brd = Board {
            candidates: [
                CELLS_ALL,
                CELLS_ALL,
                CELLS_ALL,
                CELLS_ALL,
                CELLS_ALL,
                CELLS_ALL,
                CELLS_ALL,
                CELLS_ALL,
                CELLS_ALL,
            ],
            cell_complete: 0,
            rules,
            rubiks_sets: None,
        };
        proof {
            assert(forall|i: u128| i < 128 ==> #[trigger] get_bit(CELLS_ALL, i) == (i < 81))
                by (bit_vector);
        }
        if brd.rules.normal_sudoku {
            let mut a: u8 = 0;
            while a < 9
                invariant
                    0 <= base,
                    a <= 9,
                    brd.rules.normal_sudoku == rules.normal_sudoku,
                    brd.rules.rubiks == rules.rubiks,
                    brd.cell_complete == 0,
                    brd.rubiks_sets is None,
                    forall|d: int| 0 <= d < 9 ==> #[trigger] brd.candidates[d] == CELLS_ALL,
                    brd.rules.sets@.len() == base + 2 * a,
                    forall|k: int| 0 <= k < base ==> #[trigger] brd.rules.sets@[k] == orig[k],
                    forall|g: int, i: int|
                        0 <= g < 2 * a && 0 <= i < 81 ==> #[trigger] get_bit(
                            brd.rules.sets@[base + g],
                            i as u128,
                        ) == classic_member(g, i),
                    forall|g: int|
                        0 <= g < 2 * a ==> wf81(#[trigger] brd.rules.sets@[base + g]) && count_bits(
                            brd.rules.sets@[base + g],
                            81,
                        ) == 9,
                decreases 9 - a,
            {
                let mut row_set: u128 = 0;
                let mut col_set: u128 = 0;
                proof {
                    assert forall|i: u128| i < 128 implies !get_bit(row_set, i) && !get_bit(
                        col_set,
                        i,
                    ) by {
                        assert(!get_bit(0u128, i));
                    }
                    crate::bits::lemma_count_bits_zero(row_set, 81);
                    crate::bits::lemma_count_bits_zero(col_set, 81);
                }
                let mut bcol: u8 = 0;
                while bcol < 9
                    invariant
                        a < 9,
                        bcol <= 9,
                        forall|i: u128|
                            i < 128 ==> #[trigger] get_bit(row_set, i) == (9 * a <= i < 9 * a
                                + bcol),
                        forall|i: u128|
                            i < 128 ==> #[trigger] get_bit(col_set, i) == (i < 81 && i % 9 == a && i
                                / 9 < bcol),
                        count_bits(row_set, 81) == bcol,
                        count_bits(col_set, 81) == bcol,
                    decreases 9 - bcol,
                {
                    let i1 = brd.bitmask_index(a, bcol);
                    let i2 = brd.bitmask_index(bcol, a);
                    proof {
                        assert(!get_bit(row_set, i1 as u128));
                        assert(!get_bit(col_set, i2 as u128));
                        lemma_count_bits_add_bit(row_set, i1 as u128, 81);
                        lemma_count_bits_add_bit(col_set, i2 as u128, 81);
                    }
                    row_set = row_set | (1u128 << (i1 as u128));
                    col_set = col_set | (1u128 << (i2 as u128));
                    bcol = bcol + 1;
                }
                let ghost pre = brd.rules.sets@;
                proof {
                    assert(pre.len() == base + 2 * a);
                }
                brd.rules.sets.push(row_set);
                brd.rules.sets.push(col_set);
                proof {
                    assert(brd.rules.sets@ =~= pre.push(row_set).push(col_set));
                    assert(brd.rules.sets@.len() == base + 2 * a + 2);
                    assert forall|g: int, i: int|
                        0 <= g < 2 * a + 2 && 0 <= i < 81 implies #[trigger] get_bit(
                        brd.rules.sets@[base + g],
                        i as u128,
                    ) == classic_member(g, i) by {
                        if g == 2 * a {
                            assert(brd.rules.sets@[base + g] == row_set);
                            assert(get_bit(row_set, i as u128) == (9 * a <= i < 9 * a + 9));
                        } else if g == 2 * a + 1 {
                            assert(brd.rules.sets@[base + g] == col_set);
                            assert(get_bit(col_set, i as u128) == (i % 9 == a as int));
                        } else {
                            assert(pre.push(row_set).push(col_set)[base + g] == pre.push(
                                row_set,
                            )[base + g]);
                            assert(pre.push(row_set)[base + g] == pre[base + g]);
                            assert(brd.rules.sets@[base + g] == pre[base + g]);
                        }
                    }
                    assert forall|g: int|
                        0 <= g < 2 * a + 2 implies wf81(#[trigger] brd.rules.sets@[base + g])
                        && count_bits(brd.rules.sets@[base + g], 81) == 9 by {
                        if g == 2 * a {
                            assert(brd.rules.sets@[base + g] == row_set);
                            assert forall|i: u128| 81 <= i < 128 implies !get_bit(row_set, i) by {
                                assert(get_bit(row_set, i) == (9 * a <= i < 9 * a + 9));
                            }
                        } else if g == 2 * a + 1 {
                            assert(brd.rules.sets@[base + g] == col_set);
                            assert forall|i: u128| 81 <= i < 128 implies !get_bit(col_set, i) by {
                                assert(get_bit(col_set, i) == (i < 81 && i % 9 == a && i / 9 < 9));
                            }
                        } else {
                            assert(pre.push(row_set).push(col_set)[base + g] == pre.push(
                                row_set,
                            )[base + g]);
                            assert(pre.push(row_set)[base + g] == pre[base + g]);
                            assert(brd.rules.sets@[base + g] == pre[base + g]);
                        }
                    }
                }
                a = a + 1;
            }
            let mut bx: u8 = 0;
            while bx < 9
                invariant
                    0 <= base,
                    bx <= 9,
                    brd.rules.normal_sudoku == rules.normal_sudoku,
                    brd.rules.rubiks == rules.rubiks,
                    brd.cell_complete == 0,
                    brd.rubiks_sets is None,
                    forall|d: int| 0 <= d < 9 ==> #[trigger] brd.candidates[d] == CELLS_ALL,
                    brd.rules.sets@.len() == base + 18 + bx,
                    forall|k: int| 0 <= k < base ==> #[trigger] brd.rules.sets@[k] == orig[k],
                    forall|g: int, i: int|
                        0 <= g < 18 + bx && 0 <= i < 81 ==> #[trigger] get_bit(
                            brd.rules.sets@[base + g],
                            i as u128,
                        ) == classic_member(g, i),
                    forall|g: int|
                        0 <= g < 18 + bx ==> wf81(#[trigger] brd.rules.sets@[base + g])
                            && count_bits(brd.rules.sets@[base + g], 81) == 9,
                decreases 9 - bx,
            {
                let br = bx / 3;
                let bc = bx % 3;
                let mut box_set: u128 = 0;
                proof {
                    assert forall|i: u128| i < 128 implies !get_bit(box_set, i) by {
                        assert(!get_bit(0u128, i));
                    }
                    crate::bits::lemma_count_bits_zero(box_set, 81);
                }
                let mut t: u8 = 0;
                while t < 9
                    invariant
                        br == bx / 3,
                        bc == bx % 3,
                        bx < 9,
                        t <= 9,
                        forall|i: u128|
                            i < 128 ==> #[trigger] get_bit(box_set, i) == (exists|u: int|
                                0 <= u < t && i == #[trigger] box_cell(bx as int, u)),
                        count_bits(box_set, 81) == t,
                    decreases 9 - t,
                {
                    let cell = (27 * br + 3 * bc) + (9 * (t / 3) + (t % 3));
                    proof {
                        assert(cell == box_cell(bx as int, t as int));
                        assert(cell < 81);
                        assert forall|u: int| 0 <= u < t implies box_cell(bx as int, u)
                            != cell as int by {
                            let ti = t as int;
                            assert(9 * (u / 3) + u % 3 < 9 * (ti / 3) + ti % 3)
                                by (nonlinear_arith)
                                requires
                                    0 <= u,
                                    u < ti,
                                    ti < 9,
                            ;
                        }
                        assert(!get_bit(box_set, cell as u128));
                        lemma_count_bits_add_bit(box_set, cell as u128, 81);
                    }
                    box_set = box_set | (1u128 << (cell as u128));
                    proof {
                        assert forall|i: u128| i < 128 implies #[trigger] get_bit(box_set, i) == (
                        exists|u: int|
                            0 <= u < t + 1 && i == #[trigger] box_cell(bx as int, u)) by {
                            if i == cell as u128 {
                                let u0 = t as int;
                                assert(i as int == box_cell(bx as int, u0));
                                assert((exists|u: int|
                                    0 <= u < t + 1 && i == #[trigger] box_cell(bx as int, u)));
                            }
                        }
                    }
                    t = t + 1;
                }
                let ghost pre = brd.rules.sets@;
                brd.rules.sets.push(box_set);
                proof {
                    assert(brd.rules.sets@ =~= pre.push(box_set));
                    assert forall|g: int, i: int|
                        0 <= g < 18 + bx + 1 && 0 <= i < 81 implies #[trigger] get_bit(
                        brd.rules.sets@[base + g],
                        i as u128,
                    ) == classic_member(g, i) by {
                        if g == 18 + bx {
                            assert(brd.rules.sets@[base + g] == box_set);
                            lemma_box_membership(bx as int, i);
                        } else {
                            assert(pre.push(box_set)[base + g] == pre[base + g]);
                            assert(brd.rules.sets@[base + g] == pre[base + g]);
                        }
                    }
                    assert forall|g: int|
                        0 <= g < 18 + bx + 1 implies wf81(#[trigger] brd.rules.sets@[base + g])
                        && count_bits(brd.rules.sets@[base + g], 81) == 9 by {
                        if g == 18 + bx {
                            assert(brd.rules.sets@[base + g] == box_set);
                            assert forall|i: u128| 81 <= i < 128 implies !get_bit(box_set, i) by {
                                if get_bit(box_set, i) {
                                    let u = choose|u: int|
                                        0 <= u < 9 && i == #[trigger] box_cell(bx as int, u);
                                    assert(box_cell(bx as int, u) < 81);
                                }
                            }
                        } else {
                            assert(pre.push(box_set)[base + g] == pre[base + g]);
                            assert(brd.rules.sets@[base + g] == pre[base + g]);
                        }
                    }
                }
                bx = bx + 1;
            }
        }
        proof {
            assert forall|k: int|
                0 <= k < brd.groups().len() implies wf81(#[trigger] brd.groups()[k]) && count_bits(
                brd.groups()[k],
                81,
            ) == 9 by {
                if k < base {
                    assert(brd.groups()[k] == orig[k]);
                    assert(wf81(orig[k]) && count_bits(orig[k], 81) == 9);
                } else {
                    let g = k - base;
                    assert(wf81(brd.rules.sets@[base + g]) && count_bits(
                        brd.rules.sets@[base + g],
                        81,
                    ) == 9);
                    assert(base + g == k);
                }
            }
            assert forall|d: int, i: int| 0 <= d < 9 && 0 <= i < 81 implies #[trigger] brd.cand(
                d,
                i,
            ) by {
                assert(brd.candidates[d] == CELLS_ALL);
            }
            assert forall|i: int| 0 <= i < 81 implies !brd.complete(i) by {}
            assert(wf81(brd.cell_complete)) by {
                assert(forall|i: u128| i < 128 ==> !get_bit(0u128, i));
            }
        }
        brd
    }
}

/// The nine cells of `box_cell` are exactly the box membership test of
/// classic group `18 + g`.
#[verifier::rlimit(50)]
proof fn lemma_box_membership(g: int, i: int)
    requires
        0 <= g < 9,
        0 <= i < 81,
    ensures
        (exists|u: int| 0 <= u < 9 && i == #[trigger] box_cell(g, u)) == classic_member(18 + g, i),
{
    if exists|u: int| 0 <= u < 9 && i == #[trigger] box_cell(g, u) {
        let u = choose|u: int| 0 <= u < 9 && i == #[trigger] box_cell(g, u);
        assert(i == 27 * (g / 3) + 9 * (u / 3) + 3 * (g % 3) + u % 3);
        assert((i / 9) / 3 == g / 3 && (i % 9) / 3 == g % 3) by (nonlinear_arith)
            requires
                0 <= g < 9,
                0 <= u < 9,
                i == 27 * (g / 3) + 9 * (u / 3) + 3 * (g % 3) + u % 3,
        ;
    }
    if classic_member(18 + g, i) {
        let u = 3 * ((i / 9) % 3) + i % 3;
        assert(0 <= u < 9 && i == box_cell(g, u));
        assert(0 <= u < 9 && i == 27 * (g / 3) + 9 * (u / 3) + 3 * (g % 3) + u % 3)
            by (nonlinear_arith)
            requires
                0 <= g < 9,
                0 <= i < 81,
                (i / 9) / 3 == g / 3,
                (i % 9) / 3 == g % 3,
                u == 3 * ((i / 9) % 3) + i % 3,
        ;
    }
}

} // verus!
