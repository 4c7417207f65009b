//! The interface alternate solving backends implement.

use vstd::prelude::*;

verus! {

/// A solver that mutates its board in place toward a solution.
pub trait Solve {
    /// Solves the board as far as the backend can.
    fn solve(&mut self);
}

} // verus!
