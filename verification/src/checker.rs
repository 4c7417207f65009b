//! The legality checker: a pure contradiction detector.

use vstd::prelude::*;

use crate::bits::get_bit;
use crate::bits::group_bit_lemmas;
use crate::bits::popcount81;
use crate::bits::wf81;
use crate::solver::Board;

verus! {

broadcast use group_bit_lemmas;

/// A board with a candidate-less cell is never legal.
pub proof fn lemma_zero_candidate_cell_illegal(b: Board, i: int)
    requires
        0 <= i < 81,
        b.cell_count(i) == 0,
    ensures
        !b.spec_legal(),
{
}

/// A solved legal board places every digit exactly once in every group: the
/// witness board of a successful search satisfies all its constraints.
pub proof fn lemma_solved_legal_groups(b: Board)
    requires
        b.wf(),
        b.spec_legal(),
        b.spec_solved(),
    ensures
        forall|k: int, d: int|
            0 <= k < b.groups().len() && 0 <= d < 9 ==> crate::bits::count_bits(
                #[trigger] (b.candidates[d] & b.groups()[k]),
                81,
            ) == 1,
{
    assert forall|k: int, d: int|
        0 <= k < b.groups().len() && 0 <= d < 9 implies crate::bits::count_bits(
        #[trigger] (b.candidates[d] & b.groups()[k]),
        81,
    ) == 1 by {
        let x = b.candidates[d] & b.groups()[k];
        let y = b.cell_complete & (b.candidates[d] & b.groups()[k]);
        assert forall|i: u128| i < 81 implies get_bit(y, i) == get_bit(x, i) by {
            if get_bit(x, i) {
                assert(b.complete(i as int));
            }
        }
        crate::bits::lemma_count_bits_agree(y, x, 81);
        assert(crate::bits::count_bits(x, 81) > 0);
        assert(crate::bits::count_bits(y, 81) <= 1);
    }
}

impl Board {
    /// Whether the board shows no contradiction: every group still has a home
    /// for every digit, no group holds two completed copies of one digit, and
    /// every cell keeps at least one candidate.
    pub fn is_legal(&self) -> (r: bool)
        requires
            self.wf(),
        ensures
            r == self.spec_legal(),
    {
        let n = self.rules.sets.len();
        let mut k: usize = 0;
        while k < n
            invariant
                k <= n,
                self.wf(),
                n == self.groups().len(),
                forall|k2: int, d: int|
                    0 <= k2 < k && 0 <= d < 9 ==> crate::bits::count_bits(
                        #[trigger] (self.candidates[d] & self.groups()[k2]),
                        81,
                    ) > 0,
                forall|k2: int, d: int|
                    0 <= k2 < k && 0 <= d < 9 ==> crate::bits::count_bits(
                        #[trigger] (self.cell_complete & (self.candidates[d]
                            & self.groups()[k2])),
                        81,
                    ) <= 1,
            decreases n - k,
        {
            let set = self.rules.sets[k];
            let mut d: usize = 0;
            while d < 9
                invariant
                    d <= 9,
                    k < n,
                    self.wf(),
                    n == self.groups().len(),
                    set == self.groups()[k as int],
                    forall|k2: int, e: int|
                        0 <= k2 < k && 0 <= e < 9 ==> crate::bits::count_bits(
                            #[trigger] (self.candidates[e] & self.groups()[k2]),
                            81,
                        ) > 0,
                    forall|k2: int, e: int|
                        0 <= k2 < k && 0 <= e < 9 ==> crate::bits::count_bits(
                            #[trigger] (self.cell_complete & (self.candidates[e]
                                & self.groups()[k2])),
                            81,
                        ) <= 1,
                    forall|e: int|
                        0 <= e < d ==> crate::bits::count_bits(
                            #[trigger] (self.candidates[e] & self.groups()[k as int]),
                            81,
                        ) > 0,
                    forall|e: int|
                        0 <= e < d ==> crate::bits::count_bits(
                            #[trigger] (self.cell_complete & (self.candidates[e]
                                & self.groups()[k as int])),
                            81,
                        ) <= 1,
                decreases 9 - d,
            {
                let sc = self.candidates[d] & set;
                proof {
                    assert forall|i: u128| 81 <= i < 128 implies !get_bit(sc, i) by {
                        assert(!get_bit(self.candidates[d as int], i));
                    }
                }
                if popcount81(sc) == 0 {
                    proof {
                        assert(crate::bits::count_bits(
                            self.candidates[d as int] & self.groups()[k as int],
                            81,
                        ) == 0);
                    }
                    return false;
                }
                let ss = self.cell_complete & sc;
                proof {
                    assert forall|i: u128| 81 <= i < 128 implies !get_bit(ss, i) by {
                        assert(!get_bit(sc, i));
                    }
                }
                if popcount81(ss) > 1 {
                    proof {
                        assert(crate::bits::count_bits(
                            self.cell_complete & (self.candidates[d as int]
                                & self.groups()[k as int]),
                            81,
                        ) > 1);
                    }
                    return false;
                }
                d = d + 1;
            }
            k = k + 1;
        }
        let mut i: u8 = 0;
        while i < 81
            invariant
                i <= 81,
                self.wf(),
                n == self.groups().len(),
                forall|k2: int, d: int|
                    0 <= k2 < n && 0 <= d < 9 ==> crate::bits::count_bits(
                        #[trigger] (self.candidates[d] & self.groups()[k2]),
                        81,
                    ) > 0,
                forall|k2: int, d: int|
                    0 <= k2 < n && 0 <= d < 9 ==> crate::bits::count_bits(
                        #[trigger] (self.cell_complete & (self.candidates[d]
                            & self.groups()[k2])),
                        81,
                    ) <= 1,
                forall|j: int| 0 <= j < i ==> self.cell_count(j) > 0,
            decreases 81 - i,
        {
            if self.count_candidates(i) == 0 {
                return false;
            }
            i = i + 1;
        }
        true
    }
}

} // verus!
