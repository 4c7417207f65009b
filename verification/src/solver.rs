//! The bit-parallel board and its constraint model.
//!
//! A [`Board`] keeps one 81-bit candidate mask per digit plus a mask of the
//! cells already pinned to a single digit.  [`Rules`] carries the constraint
//! groups: 81-bit masks of exactly nine cells each that must jointly contain
//! every digit once.

use vstd::prelude::*;

use crate::bits::count_bits;
use crate::bits::get_bit;
use crate::bits::get_bit16;
use crate::bits::group_bit_lemmas;
use crate::bits::lemma_bit_ext;
use crate::bits::mask_get;
use crate::bits::wf81;

verus! {

broadcast use group_bit_lemmas;

/// All 81 cell bits set: the full candidate mask of an unconstrained digit.
pub const CELLS_ALL: u128 = 0x1FFFFFFFFFFFFFFFFFFFF;

/// Which constraint families apply, and the group masks themselves.
pub struct Rules {
    /// Append the 27 classic row, column and box groups on construction.
    pub normal_sudoku: bool,
    /// Expect a second 81-symbol color layer and turn it into extra groups.
    pub rubiks: bool,
    /// The group masks; each must cover exactly nine cells.
    pub sets: Vec<u128>,
}

/// A 9x9 board as nine 81-bit candidate masks plus a completed-cell mask.
pub struct Board {
    /// `candidates[d]` bit `i` is set when digit `d` is still possible in cell `i`.
    pub candidates: [u128; 9],
    /// Bit `i` is set when cell `i` has been observed with exactly one candidate.
    pub cell_complete: u128,
    /// The constraint groups this board is solved against.
    pub rules: Rules,
    /// The six color-layer groups, kept for rendering when `rules.rubiks` is set.
    pub rubiks_sets: Option<[u128; 6]>,
}

/// Number of digits below `n` that are candidates for cell `i` of board `b`.
pub open spec fn count_digits(b: Board, i: int, n: int) -> int
    decreases n,
{
    if n <= 0 {
        0
    } else {
        count_digits(b, i, n - 1) + if b.cand(n - 1, i) {
            1int
        } else {
            0int
        }
    }
}

/// A digit count over any prefix stays between 0 and the prefix length.
pub proof fn lemma_count_digits_bounds(b: Board, i: int, n: int)
    requires
        0 <= n,
    ensures
        0 <= count_digits(b, i, n) <= n,
    decreases n,
{
    if n > 0 {
        lemma_count_digits_bounds(b, i, n - 1);
    }
}

/// Boards that agree on the candidates of cell `i` count it alike.
pub proof fn lemma_count_digits_agree(b1: Board, b2: Board, i: int, n: int)
    requires
        forall|d: int| 0 <= d < n ==> b1.cand(d, i) == b2.cand(d, i),
    ensures
        count_digits(b1, i, n) == count_digits(b2, i, n),
    decreases n,
{
    if n > 0 {
        lemma_count_digits_agree(b1, b2, i, n - 1);
    }
}

/// The digit count is zero exactly when no digit below `n` is a candidate.
pub proof fn lemma_count_digits_zero(b: Board, i: int, n: int)
    requires
        0 <= n,
    ensures
        count_digits(b, i, n) == 0 <==> (forall|d: int| 0 <= d < n ==> !b.cand(d, i)),
    decreases n,
{
    if n > 0 {
        lemma_count_digits_zero(b, i, n - 1);
        lemma_count_digits_bounds(b, i, n - 1);
    }
}

/// The digit count is one exactly when a unique digit below `n` is a candidate.
pub proof fn lemma_count_digits_one(b: Board, i: int, n: int)
    requires
        0 <= n,
    ensures
        count_digits(b, i, n) == 1 <==> (exists|w: int|
            0 <= w < n && b.cand(w, i) && (forall|d: int| 0 <= d < n && d != w ==> !b.cand(d, i))),
    decreases n,
{
    if n > 0 {
        lemma_count_digits_one(b, i, n - 1);
        lemma_count_digits_zero(b, i, n - 1);
        lemma_count_digits_bounds(b, i, n - 1);
        if count_digits(b, i, n) == 1 && b.cand(n - 1, i) {
            assert(forall|d: int| 0 <= d < n && d != n - 1 ==> !b.cand(d, i));
        }
    }
}

impl Board {
    /// Digit `d` is still a candidate for cell `i`.
    pub open spec fn cand(self, d: int, i: int) -> bool {
        0 <= d < 9 && 0 <= i < 81 && get_bit(self.candidates[d], i as u128)
    }

    /// Cell `i` has been marked complete.
    pub open spec fn complete(self, i: int) -> bool {
        0 <= i < 81 && get_bit(self.cell_complete, i as u128)
    }

    /// How many digits remain possible in cell `i`.
    pub open spec fn cell_count(self, i: int) -> int {
        count_digits(self, i, 9)
    }

    /// The constraint group masks.
    pub open spec fn groups(self) -> Seq<u128> {
        self.rules.sets@
    }

    /// Structural soundness: every mask is confined to the 81 cells, and a
    /// completed cell really has exactly one candidate left.
    pub open spec fn wf(self) -> bool {
        &&& forall|d: int| 0 <= d < 9 ==> wf81(#[trigger] self.candidates[d])
        &&& wf81(self.cell_complete)
        &&& forall|k: int| 0 <= k < self.groups().len() ==> wf81(#[trigger] self.groups()[k])
        &&& forall|i: int| #![trigger self.complete(i)]
            0 <= i < 81 && self.complete(i) ==> self.cell_count(i) == 1
    }

    /// Every cell is complete.
    pub open spec fn spec_solved(self) -> bool {
        forall|i: int| 0 <= i < 81 ==> self.complete(i)
    }

    /// No contradiction is visible: every group still has a home for every
    /// digit, no group holds two completed copies of a digit, and no cell has
    /// run out of candidates.
    pub open spec fn spec_legal(self) -> bool {
        &&& forall|k: int, d: int|
            0 <= k < self.groups().len() && 0 <= d < 9 ==> count_bits(
                #[trigger] (self.candidates[d] & self.groups()[k]),
                81,
            ) > 0
        &&& forall|k: int, d: int|
            0 <= k < self.groups().len() && 0 <= d < 9 ==> count_bits(
                #[trigger] (self.cell_complete & (self.candidates[d] & self.groups()[k])),
                81,
            ) <= 1
        &&& forall|i: int| 0 <= i < 81 ==> self.cell_count(i) > 0
    }

    /// Total number of candidate bits on the board; the measure that every
    /// propagation step and every search branch strictly shrinks.
    pub open spec fn total_cands(self) -> int {
        count_bits(self.candidates[0], 81) + count_bits(self.candidates[1], 81) + count_bits(
            self.candidates[2],
            81,
        ) + count_bits(self.candidates[3], 81) + count_bits(self.candidates[4], 81) + count_bits(
            self.candidates[5],
            81,
        ) + count_bits(self.candidates[6], 81) + count_bits(self.candidates[7], 81) + count_bits(
            self.candidates[8],
            81,
        )
    }

    /// The two boards hold the same groups and flags; only candidates and the
    /// derived completed mask may differ.
    pub open spec fn same_rules(self, other: Board) -> bool {
        &&& self.rules.normal_sudoku == other.rules.normal_sudoku
        &&& self.rules.rubiks == other.rules.rubiks
        &&& self.rules.sets@ == other.rules.sets@
        &&& self.rubiks_sets == other.rubiks_sets
    }
}

/// Copies a vector of group masks element by element.
fn copy_mask_vec(v: &Vec<u128>) -> (r: Vec<u128>)
    ensures
        r@ == v@,
{
    let mut r: Vec<u128> = Vec::new();
    let mut i: usize = 0;
    while i < v.len()
        invariant
            i <= v.len(),
            r@ == v@.take(i as int),
        decreases v.len() - i,
    {
        r.push(v[i]);
        proof {
            assert(r@ =~= v@.take(i as int + 1));
        }
        i = i + 1;
    }
    proof {
        assert(r@ =~= v@);
    }
    r
}

impl Clone for Rules {
    fn clone(&self) -> (r: Self)
        ensures
            r.normal_sudoku == self.normal_sudoku,
            r.rubiks == self.rubiks,
            r.sets@ == self.sets@,
    {
        Rules {
            normal_sudoku: self.normal_sudoku,
            rubiks: self.rubiks,
            sets: copy_mask_vec(&self.sets),
        }
    }
}

impl Clone for Board {
    fn clone(&self) -> (r: Self)
        ensures
            r.candidates == self.candidates,
            r.cell_complete == self.cell_complete,
            r.rules.normal_sudoku == self.rules.normal_sudoku,
            r.rules.rubiks == self.rules.rubiks,
            r.rules.sets@ == self.rules.sets@,
            r.rubiks_sets == self.rubiks_sets,
    {
        Board {
            candidates: self.candidates,
            cell_complete: self.cell_complete,
            rules: self.rules.clone(),
            rubiks_sets: self.rubiks_sets,
        }
    }
}

impl PartialEq for Board {
    /// Boards are compared on candidates alone: the completed mask is derived
    /// state and the groups never change during a solve.
    fn eq(&self, other: &Self) -> (r: bool) {
        let mut d: usize = 0;
        let mut same: bool = true;
        while d < 9
            invariant
                d <= 9,
                same == forall|e: int|
                    0 <= e < d ==> #[trigger] self.candidates[e] == other.candidates[e],
            decreases 9 - d,
        {
            if self.candidates[d] != other.candidates[d] {
                same = false;
            }
            d = d + 1;
        }
        proof {
            if same {
                assert(self.candidates@ =~= other.candidates@);
                assert(self.candidates == other.candidates);
            }
        }
        same
    }
}

impl vstd::std_specs::cmp::PartialEqSpecImpl for Board {
    open spec fn obeys_eq_spec() -> bool {
        true
    }

    open spec fn eq_spec(&self, other: &Board) -> bool {
        self.candidates == other.candidates
    }
}

impl Board {
    /// The bit position of the cell at `row`, `column`.
    pub fn bitmask_index(&self, row: u8, column: u8) -> (r: u8)
        requires
            row < 9,
            column < 9,
        ensures
            r == row * 9 + column,
            r < 81,
    {
        (row * 9) + column
    }

    /// The row and column of the cell at bit position `index`.
    pub fn rc_from_index(&self, index: u8) -> (rc: (u8, u8))
        requires
            index < 81,
        ensures
            rc.0 == index / 9,
            rc.1 == index % 9,
            rc.0 < 9 && rc.1 < 9,
    {
        let row = index / 9;
        let column = index % 9;
        (row, column)
    }

    /// The 3x3 box coordinates of a cell.
    pub fn get_box(&self, row: u8, column: u8) -> (b: (u8, u8))
        requires
            row < 9,
            column < 9,
        ensures
            b.0 == row / 3,
            b.1 == column / 3,
    {
        let b1 = row / 3;
        let b2 = column / 3;
        (b1, b2)
    }

    /// Tests one bit of an arbitrary mask.
    pub fn bitmask_get(&self, bitmask: u128, index: u8) -> (r: bool)
        requires
            index < 128,
        ensures
            r == get_bit(bitmask, index as u128),
    {
        mask_get(bitmask, index)
    }

    /// Whether cell `index` is marked complete.
    pub fn is_complete(&self, index: u8) -> (r: bool)
        requires
            index < 81,
        ensures
            r == self.complete(index as int),
    {
        mask_get(self.cell_complete, index)
    }

    /// Whether `digit` is still a candidate for cell `index`.
    pub fn digit_is_candidate(&self, index: u8, digit: usize) -> (r: bool)
        requires
            index < 81,
            digit < 9,
        ensures
            r == self.cand(digit as int, index as int),
    {
        mask_get(self.candidates[digit], index)
    }

    /// The digits still possible in cell `index`, packed into the low nine
    /// bits of a `u16`.
    pub fn get_candidates(&self, index: u8) -> (r: u16)
        requires
            index < 81,
        ensures
            forall|d: int|
                0 <= d < 9 ==> #[trigger] get_bit16(r, d as u16) == self.cand(d, index as int),
            forall|d: u16| 9 <= d < 16 ==> !(#[trigger] get_bit16(r, d)),
    {
        let mut r: u16 = 0;
        let mut d: u16 = 0;
        proof {
            assert(forall|e: u16| e < 16 ==> !(#[trigger] get_bit16(0u16, e)));
        }
        while d < 9
            invariant
                d <= 9,
                index < 81,
                forall|e: int|
                    0 <= e < d ==> #[trigger] get_bit16(r, e as u16) == self.cand(e, index as int),
                forall|e: u16| d <= e < 16 ==> !(#[trigger] get_bit16(r, e)),
            decreases 9 - d,
        {
            if self.digit_is_candidate(index, d as usize) {
                r = r | (1u16 << d);
            }
            d = d + 1;
        }
        r
    }

    /// How many digits remain possible in cell `index`.
    pub fn count_candidates(&self, index: u8) -> (c: u8)
        requires
            index < 81,
        ensures
            c == self.cell_count(index as int),
            c <= 9,
    {
        let mut c: u8 = 0;
        let mut d: usize = 0;
        while d < 9
            invariant
                d <= 9,
                index < 81,
                c <= d,
                c == count_digits(*self, index as int, d as int),
            decreases 9 - d,
        {
            if self.digit_is_candidate(index, d) {
                c = c + 1;
            }
            d = d + 1;
        }
        c
    }

    /// The digits still possible in cell `index`, in ascending order.
    pub fn candidates_vec(&self, index: u8) -> (v: Vec<usize>)
        requires
            index < 81,
        ensures
            v@.len() == self.cell_count(index as int),
            forall|j: int|
                0 <= j < v@.len() ==> #[trigger] v@[j] < 9 && self.cand(
                    v@[j] as int,
                    index as int,
                ),
            forall|d: int|
                0 <= d < 9 && self.cand(d, index as int) ==> exists|j: int|
                    0 <= j < v@.len() && #[trigger] v@[j] == d,
            forall|j: int, k: int| 0 <= j < k < v@.len() ==> v@[j] < v@[k],
    {
        let mut v: Vec<usize> = Vec::new();
        let mut d: usize = 0;
        while d < 9
            invariant
                d <= 9,
                index < 81,
                v@.len() == count_digits(*self, index as int, d as int),
                forall|j: int|
                    0 <= j < v@.len() ==> #[trigger] v@[j] < d && self.cand(
                        v@[j] as int,
                        index as int,
                    ),
                forall|e: int|
                    0 <= e < d && self.cand(e, index as int) ==> exists|j: int|
                        0 <= j < v@.len() && #[trigger] v@[j] == e,
                forall|j: int, k: int| 0 <= j < k < v@.len() ==> v@[j] < v@[k],
            decreases 9 - d,
        {
            let ghost vpre = v@;
            if self.digit_is_candidate(index, d) {
                v.push(d);
                proof {
                    assert(v@[v@.len() - 1] == d);
                }
            }
            proof {
                assert forall|e: int|
                    0 <= e <= d && self.cand(e, index as int) implies exists|j: int|
                    0 <= j < v@.len() && #[trigger] v@[j] == e by {
                    if e == d as int {
                        assert(v@[v@.len() - 1] == e);
                    } else {
                        let j = choose|j: int| 0 <= j < vpre.len() && #[trigger] vpre[j] == e;
                        assert(v@[j] == vpre[j]);
                    }
                }
            }
            d = d + 1;
        }
        v
    }

    /// Whether every cell is complete.
    pub fn is_solved(&self) -> (r: bool)
        requires
            self.wf(),
        ensures
            r == self.spec_solved(),
    {
        proof {
            assert(forall|i: u128| i < 128 ==> #[trigger] get_bit(CELLS_ALL, i) == (i < 81))
                by (bit_vector);
            if self.cell_complete == CELLS_ALL {
                assert(self.spec_solved());
            }
            if self.spec_solved() {
                assert forall|i: u128| i < 128 implies get_bit(self.cell_complete, i) == get_bit(
                    CELLS_ALL,
                    i,
                ) by {
                    if i < 81 {
                        assert(self.complete(i as int));
                    }
                }
                lemma_bit_ext(self.cell_complete, CELLS_ALL);
            }
        }
        self.cell_complete == CELLS_ALL
    }

    /// Forces cell `index` to exactly `digit`: every other digit loses its
    /// candidacy there and `digit` gains it, whether or not it was present.
    pub fn set_cell(&mut self, digit: usize, index: u8)
        requires
            digit < 9,
            index < 81,
            old(self).wf(),
        ensures
            final(self).wf(),
            forall|d: int, i: int|
                0 <= d < 9 && 0 <= i < 81 ==> #[trigger] final(self).cand(d, i) == (if i
                    == index as int {
                    d == digit as int
                } else {
                    old(self).cand(d, i)
                }),
            final(self).cell_complete == old(self).cell_complete,
            final(self).same_rules(*old(self)),
            final(self).cell_count(index as int) == 1,
    {
        let mut d: usize = 0;
        while d < 9
            invariant
                d <= 9,
                digit < 9,
                index < 81,
                forall|e: int| 0 <= e < 9 ==> wf81(#[trigger] self.candidates[e]),
                forall|e: int, i: int|
                    0 <= e < d && 0 <= i < 81 ==> #[trigger] self.cand(e, i) == (if i
                        == index as int {
                        e == digit as int
                    } else {
                        old(self).cand(e, i)
                    }),
                forall|e: int, i: int|
                    d <= e < 9 && 0 <= i < 81 ==> #[trigger] self.cand(e, i) == old(self).cand(
                        e,
                        i,
                    ),
                self.cell_complete == old(self).cell_complete,
                self.rules == old(self).rules,
                self.rubiks_sets == old(self).rubiks_sets,
            decreases 9 - d,
        {
            let ghost pre = *self;
            let m = self.candidates[d];
            if d == digit {
                self.candidates[d] = m | (1u128 << (index as u128));
            } else {
                self.candidates[d] = m & !(1u128 << (index as u128));
            }
            proof {
                let dd = d as int;
                assert(m == pre.candidates[dd]);
                assert(wf81(m));
                assert forall|i: u128| 81 <= i < 128 implies !get_bit(self.candidates[dd], i) by {
                    assert(!get_bit(m, i));
                }
                assert forall|i: int| 0 <= i < 81 implies self.cand(dd, i) == (if i == index as int {
                    dd == digit as int
                } else {
                    old(self).cand(dd, i)
                }) by {
                    assert(pre.cand(dd, i) == old(self).cand(dd, i));
                }
                assert forall|e: int, i: int|
                    0 <= e <= dd && 0 <= i < 81 implies self.cand(e, i) == (if i == index as int {
                    e == digit as int
                } else {
                    old(self).cand(e, i)
                }) by {
                    if e != dd {
                        assert(self.candidates[e] == pre.candidates[e]);
                        assert(pre.cand(e, i) == (if i == index as int {
                            e == digit as int
                        } else {
                            old(self).cand(e, i)
                        }));
                    }
                }
                assert forall|e: int, i: int|
                    dd < e < 9 && 0 <= i < 81 implies self.cand(e, i) == old(self).cand(e, i) by {
                    assert(self.candidates[e] == pre.candidates[e]);
                    assert(pre.cand(e, i) == old(self).cand(e, i));
                }
            }
            d = d + 1;
        }
        proof {
            let fin = *self;
            assert(fin.groups() == old(self).groups());
            assert forall|k: int| 0 <= k < fin.groups().len() implies wf81(
                #[trigger] fin.groups()[k],
            ) by {
                assert(wf81(old(self).groups()[k]));
            }
            lemma_cell_count_single(fin, index as int, digit as int);
            assert forall|i: int| 0 <= i < 81 && #[trigger] fin.complete(i) implies fin.cell_count(
                i,
            ) == 1 by {
                if i != index as int {
                    assert(old(self).complete(i));
                    assert(old(self).cell_count(i) == 1);
                    assert(forall|e: int| 0 <= e < 9 ==> #[trigger] fin.cand(e, i) == old(
                        self,
                    ).cand(e, i));
                    lemma_count_digits_agree(fin, *old(self), i, 9);
                }
            }
        }
    }
}

/// The cell indices a mask covers, in ascending order.
pub fn get_set_indexes(set: u128) -> (v: Vec<u8>)
    requires
        wf81(set),
    ensures
        v@.len() == count_bits(set, 81),
        forall|j: int| 0 <= j < v@.len() ==> #[trigger] v@[j] < 81 && get_bit(set, v@[j] as u128),
        forall|i: u128|
            i < 81 && get_bit(set, i) ==> exists|j: int|
                0 <= j < v@.len() && #[trigger] v@[j] == i as u8,
        forall|j: int, k: int| 0 <= j < k < v@.len() ==> v@[j] < v@[k],
{
    let mut v: Vec<u8> = Vec::new();
    let mut i: u8 = 0;
    while i < 81
        invariant
            i <= 81,
            wf81(set),
            v@.len() == count_bits(set, i as int),
            forall|j: int| 0 <= j < v@.len() ==> #[trigger] v@[j] < i && get_bit(
                set,
                v@[j] as u128,
            ),
            forall|w: u128|
                w < i && get_bit(set, w) ==> exists|j: int|
                    0 <= j < v@.len() && #[trigger] v@[j] == w as u8,
            forall|j: int, k: int| 0 <= j < k < v@.len() ==> v@[j] < v@[k],
        decreases 81 - i,
    {
        let ghost vpre = v@;
        if mask_get(set, i) {
            v.push(i);
            proof {
                assert(v@[v@.len() - 1] == i);
            }
        }
        proof {
            assert forall|w: u128| w < i + 1 && get_bit(set, w) implies exists|j: int|
                0 <= j < v@.len() && #[trigger] v@[j] == w as u8 by {
                if w == i as u128 {
                    assert(v@[v@.len() - 1] == w as u8);
                } else {
                    let j = choose|j: int| 0 <= j < vpre.len() && #[trigger] vpre[j] == w as u8;
                    assert(v@[j] == vpre[j]);
                }
            }
        }
        i = i + 1;
    }
    v
}

/// A cell whose sole candidate is `d` has count one.
proof fn lemma_cell_count_single(b: Board, i: int, d: int)
    requires
        0 <= i < 81,
        0 <= d < 9,
        forall|e: int| 0 <= e < 9 ==> (#[trigger] b.cand(e, i) <==> e == d),
    ensures
        b.cell_count(i) == 1,
{
    lemma_count_digits_one(b, i, 9);
    assert(b.cand(d, i) && (forall|e: int| 0 <= e < 9 && e != d ==> !(#[trigger] b.cand(e, i))));
}

} // verus!
