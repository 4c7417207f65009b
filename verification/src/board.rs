//! The read-accessor abstraction that rendering collaborators consume.

use vstd::prelude::*;

use crate::rules::Rules;

verus! {

/// Read access to a board's completed cells and its rule configuration.
pub trait Board {
    /// The solved digit of each cell in the abstract view, 0 where
    /// undetermined.
    spec fn cells_view(&self) -> Seq<u8>;

    /// The solved digit of each cell, 0 where undetermined.
    fn completed_cells(&self) -> (out: [u8; 81])
        ensures
            out@ == self.cells_view(),
    ;

    /// The rule configuration the board was built with.
    fn rules(&self) -> &Rules;

    /// One row of the completed cells.
    fn row(&self, row: usize) -> (out: [u8; 9])
        requires
            row < 9,
        ensures
            forall|k: int| 0 <= k < 9 ==> #[trigger] out@[k] == self.cells_view()[row * 9 + k],
    {
        let cells = self.completed_cells();
        let mut out: [u8; 9] = [0, 0, 0, 0, 0, 0, 0, 0, 0];
        let mut k: usize = 0;
        while k < 9
            invariant
                k <= 9,
                row < 9,
                cells@ == self.cells_view(),
                forall|j: int| 0 <= j < k ==> #[trigger] out@[j] == self.cells_view()[row * 9 + j],
            decreases 9 - k,
        {
            out[k] = cells[row * 9 + k];
            k = k + 1;
        }
        out
    }
}

/// A plain per-cell board: boolean candidate flags and solved digits.
#[derive(Debug, Clone)]
pub struct BasicBoard {
    /// `candidates[i][d]` is set while digit `d` is still possible in cell `i`.
    pub candidates: [[bool; 9]; 81],
    /// The solved digit of each cell, 0 where undetermined.
    pub cells: [u8; 81],
    /// The rule configuration the board was built with.
    pub rules: Rules,
}

impl Board for BasicBoard {
    open spec fn cells_view(&self) -> Seq<u8> {
        self.cells@
    }

    fn completed_cells(&self) -> (out: [u8; 81]) {
        self.cells
    }

    fn rules(&self) -> &Rules {
        &self.rules
    }
}

impl PartialEq for BasicBoard {
    /// Boards are compared on their candidate flags alone.
    fn eq(&self, other: &Self) -> (r: bool) {
        let mut i: usize = 0;
        let mut same: bool = true;
        while i < 81
            invariant
                i <= 81,
                same == forall|j: int|
                    0 <= j < i ==> #[trigger] self.candidates[j] == other.candidates[j],
            decreases 81 - i,
        {
            let ghost same_pre = same;
            let mut d: usize = 0;
            let mut row_same: bool = true;
            while d < 9
                invariant
                    d <= 9,
                    i < 81,
                    row_same == forall|e: int|
                        0 <= e < d ==> #[trigger] self.candidates[i as int][e]
                            == other.candidates[i as int][e],
                decreases 9 - d,
            {
                if self.candidates[i][d] != other.candidates[i][d] {
                    row_same = false;
                }
                d = d + 1;
            }
            proof {
                if row_same {
                    assert(self.candidates[i as int]@ =~= other.candidates[i as int]@);
                    assert(self.candidates[i as int] == other.candidates[i as int]);
                }
            }
            if !row_same {
                same = false;
            }
            i = i + 1;
        }
        proof {
            if same {
                assert(self.candidates@ =~= other.candidates@);
                assert(self.candidates == other.candidates);
            }
        }
        same
    }
}

impl vstd::std_specs::cmp::PartialEqSpecImpl for BasicBoard {
    open spec fn obeys_eq_spec() -> bool {
        true
    }

    open spec fn eq_spec(&self, other: &BasicBoard) -> bool {
        self.candidates == other.candidates
    }
}

} // verus!
