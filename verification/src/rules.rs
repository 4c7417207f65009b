//! Rule configuration shared with the board abstraction.

use vstd::prelude::*;

pub mod sudoku;

verus! {

/// Which constraint families apply, and the group masks themselves; the
/// configuration consumed by the board abstraction.
#[derive(Debug)]
pub struct Rules {
    /// Append the 27 classic row, column and box groups on construction.
    pub normal_sudoku: bool,
    /// Expect a second 81-symbol color layer and turn it into extra groups.
    pub rubiks: bool,
    /// The group masks; each must cover exactly nine cells.
    pub sets: Vec<u128>,
}

impl Clone for Rules {
    fn clone(&self) -> (r: Self)
        ensures
            r.normal_sudoku == self.normal_sudoku,
            r.rubiks == self.rubiks,
            r.sets@ == self.sets@,
    {
        let mut sets: Vec<u128> = Vec::new();
        let mut i: usize = 0;
        while i < self.sets.len()
            invariant
                i <= self.sets.len(),
                sets@ == self.sets@.take(i as int),
            decreases self.sets.len() - i,
        {
            sets.push(self.sets[i]);
            proof {
                assert(sets@ =~= self.sets@.take(i as int + 1));
            }
            i = i + 1;
        }
        proof {
            assert(sets@ =~= self.sets@);
        }
        Rules { normal_sudoku: self.normal_sudoku, rubiks: self.rubiks, sets }
    }
}

} // verus!
