//! The deduction layer and the backtracking search engine.
//!
//! `solve` drives propagation to a fixed point, then branches on the cell
//! with the fewest remaining candidates.  Every deduction only removes
//! candidates, so the total candidate count is a strictly decreasing measure
//! for both the propagation loop and the recursion: the liveness guard of the
//! engine is discharged statically rather than checked at run time.

use vstd::prelude::*;

use crate::bits::get_bit;
use crate::bits::group_bit_lemmas;
use crate::bits::lemma_bit_ext;
use crate::bits::lemma_count_bits_le;
use crate::bits::lemma_count_bits_lt;
use crate::bits::lemma_count_bits_one;
use crate::bits::popcount81;
use crate::bits::wf81;
use crate::completion::assignment;
use crate::completion::completion_ok;
use crate::completion::lemma_branch_partition;
use crate::completion::lemma_completion_legal;
use crate::completion::lemma_solved_assignment;
use crate::completion::two_completions;
use crate::completion::in_group;
use crate::completion::group_covers;
use crate::completion::lemma_subset_reflects_completions;
use crate::solver::count_digits;
use crate::solver::lemma_count_digits_agree;
use crate::solver::lemma_count_digits_one;
use crate::solver::lemma_count_digits_zero;
use crate::solver::Board;

verus! {

broadcast use group_bit_lemmas;

/// Ceiling on branch attempts shared across the whole search tree.
pub const RECURSION_LIMIT: u128 = 10000;

/// A board whose candidates are pointwise included in another's has at most
/// as many candidates in total.
pub proof fn lemma_total_le(b1: Board, b2: Board)
    requires
        b1.wf(),
        b2.wf(),
        forall|d: int, i: int|
            0 <= d < 9 && 0 <= i < 81 && #[trigger] b1.cand(d, i) ==> b2.cand(d, i),
    ensures
        b1.total_cands() <= b2.total_cands(),
{
    assert forall|d: int| 0 <= d < 9 implies crate::bits::count_bits(#[trigger] b1.candidates[d], 81)
        <= crate::bits::count_bits(b2.candidates[d], 81) by {
        assert forall|i: u128|
            i < 81 && get_bit(b1.candidates[d], i) implies get_bit(b2.candidates[d], i) by {
            assert(b1.cand(d, i as int));
        }
        lemma_count_bits_le(b1.candidates[d], b2.candidates[d], 81);
    }
}

/// The total candidate count is never negative.
pub proof fn lemma_total_nonneg(b: Board)
    ensures
        b.total_cands() >= 0,
{
    assert forall|d: int| 0 <= d < 9 implies crate::bits::count_bits(#[trigger] b.candidates[d], 81)
        >= 0 by {
        crate::bits::lemma_count_bits_bounds(b.candidates[d], 81);
    }
}

/// With a candidate removed somewhere, the inclusion is strict.
pub proof fn lemma_total_lt(b1: Board, b2: Board, d0: int, i0: int)
    requires
        b1.wf(),
        b2.wf(),
        forall|d: int, i: int|
            0 <= d < 9 && 0 <= i < 81 && #[trigger] b1.cand(d, i) ==> b2.cand(d, i),
        0 <= d0 < 9,
        0 <= i0 < 81,
        b2.cand(d0, i0),
        !b1.cand(d0, i0),
    ensures
        b1.total_cands() < b2.total_cands(),
{
    assert forall|d: int| 0 <= d < 9 implies crate::bits::count_bits(#[trigger] b1.candidates[d], 81)
        <= crate::bits::count_bits(b2.candidates[d], 81) by {
        assert forall|i: u128|
            i < 81 && get_bit(b1.candidates[d], i) implies get_bit(b2.candidates[d], i) by {
            assert(b1.cand(d, i as int));
        }
        lemma_count_bits_le(b1.candidates[d], b2.candidates[d], 81);
    }
    assert forall|i: u128|
        i < 81 && get_bit(b1.candidates[d0], i) implies get_bit(b2.candidates[d0], i) by {
        assert(b1.cand(d0, i as int));
    }
    lemma_count_bits_lt(b1.candidates[d0], b2.candidates[d0], 81, i0 as u128);
}

/// Boards with the same candidate masks but some pointwise difference do not
/// exist: unequal masks expose a differing cell.
pub proof fn lemma_changed_witness(b1: Board, b2: Board)
    requires
        b1.wf(),
        b2.wf(),
        forall|d: int, i: int|
            0 <= d < 9 && 0 <= i < 81 && #[trigger] b1.cand(d, i) ==> b2.cand(d, i),
        b1.candidates != b2.candidates,
    ensures
        exists|d: int, i: int|
            0 <= d < 9 && 0 <= i < 81 && #[trigger] b2.cand(d, i) && !b1.cand(d, i),
{
    if forall|d: int, i: int|
        0 <= d < 9 && 0 <= i < 81 ==> #[trigger] b2.cand(d, i) == b1.cand(d, i) {
        assert forall|d: int| 0 <= d < 9 implies #[trigger] b1.candidates[d]
            == b2.candidates[d] by {
            assert forall|i: u128| i < 128 implies get_bit(b1.candidates[d], i) == get_bit(
                b2.candidates[d],
                i,
            ) by {
                if i < 81 {
                    assert(b2.cand(d, i as int) == b1.cand(d, i as int));
                } else {
                    assert(!get_bit(b1.candidates[d], i) && !get_bit(b2.candidates[d], i));
                }
            }
            lemma_bit_ext(b1.candidates[d], b2.candidates[d]);
        }
        assert(b1.candidates@ =~= b2.candidates@);
        assert(b1.candidates == b2.candidates);
    }
}

/// Boards with the same candidates, completed mask and groups agree on every
/// derived judgement.
pub proof fn lemma_state_transfer(a: Board, b: Board)
    requires
        a.candidates == b.candidates,
        a.cell_complete == b.cell_complete,
        a.rules.sets@ == b.rules.sets@,
    ensures
        forall|i: int| 0 <= i < 81 ==> a.cell_count(i) == b.cell_count(i),
        a.spec_legal() == b.spec_legal(),
        a.spec_solved() == b.spec_solved(),
        a.wf() == b.wf(),
        a.total_cands() == b.total_cands(),
{
    assert forall|d: int, i: int| 0 <= d < 9 && 0 <= i < 81 implies #[trigger] a.cand(d, i)
        == b.cand(d, i) by {
        assert(a.candidates[d] == b.candidates[d]);
    }
    assert forall|i: int| 0 <= i < 81 implies a.cell_count(i) == b.cell_count(i) by {
        lemma_count_digits_agree(a, b, i, 9);
    }
    assert(a.groups() == b.groups());
    assert forall|k: int, d: int|
        0 <= k < a.groups().len() && 0 <= d < 9 implies (#[trigger] (a.candidates[d]
        & a.groups()[k])) == (b.candidates[d] & b.groups()[k]) && (a.cell_complete & (
    a.candidates[d] & a.groups()[k])) == (b.cell_complete & (b.candidates[d]
        & b.groups()[k])) by {
        assert(a.candidates[d] == b.candidates[d]);
    }
    assert forall|d: int| 0 <= d < 9 implies #[trigger] a.candidates[d] == b.candidates[d] by {}
    assert forall|i: int| 0 <= i < 81 implies #[trigger] a.complete(i) == b.complete(i) by {}
    if a.spec_solved() {
        assert forall|i: int| 0 <= i < 81 implies b.complete(i) by {
            assert(a.complete(i));
        }
    }
    if b.spec_solved() {
        assert forall|i: int| 0 <= i < 81 implies a.complete(i) by {
            assert(b.complete(i));
        }
    }
    if b.spec_legal() {
        assert(a.spec_legal());
    }
    if a.spec_legal() {
        assert(b.spec_legal());
    }
    if b.wf() {
        assert forall|d: int| 0 <= d < 9 implies wf81(#[trigger] a.candidates[d]) by {
            assert(wf81(b.candidates[d]));
        }
        assert forall|k: int| 0 <= k < a.groups().len() implies wf81(#[trigger] a.groups()[k]) by {
            assert(wf81(b.groups()[k]));
        }
        assert forall|i: int| 0 <= i < 81 && #[trigger] a.complete(i) implies a.cell_count(i)
            == 1 by {
            assert(b.complete(i));
        }
        assert(a.wf());
    }
    if a.wf() {
        assert forall|d: int| 0 <= d < 9 implies wf81(#[trigger] b.candidates[d]) by {
            assert(wf81(a.candidates[d]));
        }
        assert forall|k: int| 0 <= k < b.groups().len() implies wf81(#[trigger] b.groups()[k]) by {
            assert(wf81(a.groups()[k]));
        }
        assert forall|i: int| 0 <= i < 81 && #[trigger] b.complete(i) implies b.cell_count(i)
            == 1 by {
            assert(a.complete(i));
        }
        assert(b.wf());
    }
}

/// A propagation round that changed the candidates strictly shrank the total.
proof fn lemma_propagation_step_shrinks(cur: Board, before: Board, s0: Board)
    requires
        cur.wf(),
        s0.wf(),
        before.candidates == s0.candidates,
        forall|d: int, i: int|
            0 <= d < 9 && 0 <= i < 81 && #[trigger] cur.cand(d, i) ==> s0.cand(d, i),
        cur.candidates != before.candidates,
    ensures
        cur.total_cands() < s0.total_cands(),
{
    lemma_changed_witness(cur, s0);
    let (d, i) = choose|d: int, i: int|
        0 <= d < 9 && 0 <= i < 81 && #[trigger] s0.cand(d, i) && !cur.cand(d, i);
    lemma_total_lt(cur, s0, d, i);
}

/// A cell with two or more candidates has one besides any given digit.
proof fn lemma_other_digit(b: Board, i: int, d0: int)
    requires
        0 <= i < 81,
        b.cell_count(i) >= 2,
    ensures
        exists|e: int| 0 <= e < 9 && e != d0 && #[trigger] b.cand(e, i),
{
    if forall|e: int| 0 <= e < 9 && e != d0 ==> !(#[trigger] b.cand(e, i)) {
        lemma_count_digits_zero(b, i, 9);
        lemma_count_digits_one(b, i, 9);
        if b.cand(d0, i) {
            assert(b.cell_count(i) == 1);
        } else {
            assert(b.cell_count(i) == 0);
        }
    }
}

/// The candidates of digit `d` within group `k` as the singles rule reads
/// them; the incomplete-only variant leaves completed cells out.
pub open spec fn rule_view(b: Board, skip_complete: bool, k: int, d: int) -> u128 {
    if skip_complete {
        (b.candidates[d] & b.groups()[k]) & !b.cell_complete
    } else {
        b.candidates[d] & b.groups()[k]
    }
}

/// Group `k` confines digit `d` to the single cell `i` under the rule's
/// view: `i` is the one cell of the group still admitting `d`.
pub open spec fn confines(b: Board, skip_complete: bool, k: int, d: int, i: int) -> bool {
    &&& 0 <= k < b.groups().len()
    &&& 0 <= d < 9
    &&& 0 <= i < 81
    &&& crate::bits::count_bits(rule_view(b, skip_complete, k, d), 81) == 1
    &&& get_bit(rule_view(b, skip_complete, k, d), i as u128)
}

/// Some group confines some digit to cell `i`.
pub open spec fn some_confinement(b: Board, skip_complete: bool, i: int) -> bool {
    exists|k: int, d: int| #[trigger] confines(b, skip_complete, k, d, i)
}

/// Every confinement at cell `i` names the digit `d`.
pub open spec fn all_confine_to(b: Board, skip_complete: bool, i: int, d: int) -> bool {
    forall|k2: int, d2: int| #[trigger] confines(b, skip_complete, k2, d2, i) ==> d2 == d
}

/// The board is saturated: an elimination sweep removes nothing, every
/// single-candidate cell is already marked complete, and every digit a
/// group confines to one agreeing cell is already that cell's sole
/// candidate.  This is the state in which only branching makes progress.
pub open spec fn stuck_fixed_point(b: Board) -> bool {
    &&& forall|d: int|
        0 <= d < 9 ==> #[trigger] crate::engine::elim_upto(
            b.candidates[d],
            b.cell_complete,
            b.groups(),
            b.groups().len() as int,
        ) == b.candidates[d]
    &&& forall|i: int| 0 <= i < 81 && #[trigger] b.cell_count(i) == 1 ==> b.complete(i)
    &&& forall|i: int, d: int|
        #![trigger all_confine_to(b, false, i, d)]
        0 <= i < 81 && 0 <= d < 9 && some_confinement(b, false, i) && all_confine_to(b, false, i, d)
            ==> forall|e: int| 0 <= e < 9 ==> (#[trigger] b.cand(e, i) <==> e == d)
}

/// The pair `(k2, d2)` comes before `(k, d)` in the order the singles rule
/// walks the group-digit pairs.
pub open spec fn pair_before(k2: int, d2: int, k: int, d: int) -> bool {
    k2 < k || (k2 == k && d2 < d)
}

/// No pair processed before `(k, d)` confines anything to cell `i`, and the
/// allow-masks still admit every digit there.
pub open spec fn masks_untouched_at(
    b: Board,
    skip_complete: bool,
    masks: [u128; 9],
    k: int,
    d: int,
    i: int,
) -> bool {
    &&& forall|k2: int, d2: int|
        pair_before(k2, d2, k, d) ==> !(#[trigger] confines(b, skip_complete, k2, d2, i))
    &&& forall|e: int| 0 <= e < 9 ==> #[trigger] get_bit(masks[e], i as u128)
}

/// Some pair processed before `(k, d)` confines its digit to cell `i`, and
/// the allow-masks admit exactly that digit there.
pub open spec fn masks_forced_at(
    b: Board,
    skip_complete: bool,
    masks: [u128; 9],
    k: int,
    d: int,
    i: int,
) -> bool {
    exists|k2: int, d2: int|
        #[trigger] confines(b, skip_complete, k2, d2, i) && pair_before(k2, d2, k, d) && (forall|
            e: int,
        | 0 <= e < 9 ==> get_bit(masks[e], i as u128) == (e == d2))
}

/// The per-cell state of the allow-masks while the singles rule walks the
/// pairs up to `(k, d)`: a cell no processed pair confines still allows
/// everything, and a confined cell allows exactly the digit of one
/// processed confinement.
pub open spec fn masks_state_at(
    b: Board,
    skip_complete: bool,
    masks: [u128; 9],
    k: int,
    d: int,
    i: int,
) -> bool {
    masks_untouched_at(b, skip_complete, masks, k, d, i) || masks_forced_at(
        b,
        skip_complete,
        masks,
        k,
        d,
        i,
    )
}

/// From the allow-masks' per-cell shape, the applied board forces every
/// uniquely confined cell to its digit and leaves unconfined cells alone.
proof fn lemma_forcing_from_masks(pre: Board, fin: Board, masks: [u128; 9], skip_complete: bool)
    requires
        forall|i: int, e: int|
            0 <= i < 81 && 0 <= e < 9 && !some_confinement(pre, skip_complete, i)
                ==> #[trigger] get_bit(masks[e], i as u128),
        forall|i: int, d: int, e: int|
            #![trigger get_bit(masks[e], i as u128), all_confine_to(pre, skip_complete, i, d)]
            0 <= i < 81 && 0 <= d < 9 && 0 <= e < 9 && some_confinement(pre, skip_complete, i)
                && all_confine_to(pre, skip_complete, i, d) ==> get_bit(masks[e], i as u128) == (e
                == d),
        forall|e: int, i: int|
            0 <= e < 9 && 0 <= i < 81 ==> (#[trigger] fin.cand(e, i) == (pre.cand(e, i) && get_bit(
                masks[e],
                i as u128,
            ))),
    ensures
        forall|i: int, d: int|
            #![trigger all_confine_to(pre, skip_complete, i, d)]
            0 <= i < 81 && 0 <= d < 9 && some_confinement(pre, skip_complete, i)
                && all_confine_to(pre, skip_complete, i, d) ==> forall|e: int|
                0 <= e < 9 ==> (#[trigger] fin.cand(e, i) <==> e == d),
        forall|i: int|
            0 <= i < 81 && !(#[trigger] some_confinement(pre, skip_complete, i)) ==> forall|e: int|
                0 <= e < 9 ==> #[trigger] fin.cand(e, i) == pre.cand(e, i),
{
    assert forall|i: int, d: int|
        #![trigger all_confine_to(pre, skip_complete, i, d)]
        0 <= i < 81 && 0 <= d < 9 && some_confinement(pre, skip_complete, i) && all_confine_to(
            pre,
            skip_complete,
            i,
            d,
        ) implies forall|e: int| 0 <= e < 9 ==> (#[trigger] fin.cand(e, i) <==> e == d) by {
        let (kw, dw) = choose|k2: int, d2: int| #[trigger] confines(pre, skip_complete, k2, d2, i);
        assert(dw == d);
        assert(get_bit(rule_view(pre, skip_complete, kw, d), i as u128));
        assert(get_bit(pre.candidates[d], i as u128));
        assert(pre.cand(d, i));
        assert forall|e: int| 0 <= e < 9 implies (#[trigger] fin.cand(e, i) <==> e == d) by {
            assert(get_bit(masks[e], i as u128) == (e == d));
            assert(fin.cand(e, i) == (pre.cand(e, i) && get_bit(masks[e], i as u128)));
        }
    }
    assert forall|i: int|
        0 <= i < 81 && !(#[trigger] some_confinement(pre, skip_complete, i)) implies forall|e: int|
        0 <= e < 9 ==> #[trigger] fin.cand(e, i) == pre.cand(e, i) by {
        assert forall|e: int| 0 <= e < 9 implies #[trigger] fin.cand(e, i) == pre.cand(e, i) by {
            assert(get_bit(masks[e], i as u128));
        }
    }
}

impl Board {
    /// The minimum-remaining-values choice: the unsolved cell (more than one
    /// candidate) with the fewest candidates, ties broken by the lowest index.
    pub fn find_lowest_candidates_unsolved(&self) -> (r: (u8, u8))
        requires
            exists|i: int| 0 <= i < 81 && #[trigger] self.cell_count(i) > 1,
        ensures
            r.0 < 81,
            r.1 == self.cell_count(r.0 as int),
            r.1 > 1,
            forall|i: int| 0 <= i < 81 && #[trigger] self.cell_count(i) > 1 ==> r.1
                <= self.cell_count(i),
            forall|i: int| 0 <= i < r.0 as int && #[trigger] self.cell_count(i) > 1 ==> r.1
                < self.cell_count(i),
    {
        let mut min_index: u8 = 10;
        let mut min_count: u8 = 200;
        let mut index: u8 = 0;
        while index < 81
            invariant
                index <= 81,
                min_count > 1,
                (min_count == 200 && min_index == 10 && forall|j: int|
                    0 <= j < index ==> #[trigger] self.cell_count(j) <= 1) || (min_index < index
                    && min_count == self.cell_count(min_index as int) && (forall|j: int|
                    0 <= j < index && #[trigger] self.cell_count(j) > 1 ==> min_count
                        <= self.cell_count(j)) && (forall|j: int|
                    0 <= j < min_index as int && #[trigger] self.cell_count(j) > 1 ==> min_count
                        < self.cell_count(j))),
            decreases 81 - index,
        {
            let count = self.count_candidates(index);
            if count > 1 && count < min_count {
                min_index = index;
                min_count = count;
            }
            index = index + 1;
        }
        (min_index, min_count)
    }

    /// The deduction pass: for each group and digit with the digit confined
    /// to a single member cell, that cell is forced to the digit alone.
    /// Returns whether any candidate was actually removed.  When several
    /// different digits are each confined to the same cell - an already
    /// inconsistent board - the cell keeps exactly one of them, so the
    /// forcing clause below speaks of cells whose confinements agree.
    /// (Pair and triple cross-elimination are a planned extension of this
    /// rule list.)
    pub fn hidden_naked_singles_pairs_triples(&mut self) -> (changed: bool)
        requires
            old(self).wf(),
        ensures
            final(self).wf(),
            final(self).cell_complete == old(self).cell_complete,
            final(self).same_rules(*old(self)),
            forall|d: int, i: int|
                0 <= d < 9 && 0 <= i < 81 && #[trigger] final(self).cand(d, i) ==> old(self).cand(
                    d,
                    i,
                ),
            forall|d: int, i: int|
                0 <= d < 9 && 0 <= i < 81 && old(self).complete(i) && old(self).cand(d, i)
                    ==> #[trigger] final(self).cand(d, i),
            changed == (final(self).candidates != old(self).candidates),
            forall|a: Seq<int>| #[trigger]
                completion_ok(*final(self), a) <==> completion_ok(*old(self), a),
            forall|i: int, d: int|
                #![trigger all_confine_to(*old(self), false, i, d)]
                0 <= i < 81 && 0 <= d < 9 && some_confinement(*old(self), false, i)
                    && all_confine_to(*old(self), false, i, d) ==> forall|e: int|
                    0 <= e < 9 ==> (#[trigger] final(self).cand(e, i) <==> e == d),
            forall|i: int|
                0 <= i < 81 && !(#[trigger] some_confinement(*old(self), false, i)) ==> forall|
                    e: int,
                | 0 <= e < 9 ==> #[trigger] final(self).cand(e, i) == old(self).cand(e, i),
    {
        let masks = self.deduction_masks(false);
        let changed = self.apply_masks(masks);
        proof {
            lemma_forcing_from_masks(*old(self), *self, masks, false);
        }
        changed
    }

    /// The incomplete-cell variant of the singles rule: a digit confined,
    /// among the not-yet-complete members of a group, to one cell forces that
    /// cell.  Returns whether any candidate was actually removed; as with
    /// the full pass, a cell two digits both claim keeps exactly one.
    pub fn hidden_singles(&mut self) -> (changed: bool)
        requires
            old(self).wf(),
        ensures
            final(self).wf(),
            final(self).cell_complete == old(self).cell_complete,
            final(self).same_rules(*old(self)),
            forall|d: int, i: int|
                0 <= d < 9 && 0 <= i < 81 && #[trigger] final(self).cand(d, i) ==> old(self).cand(
                    d,
                    i,
                ),
            forall|d: int, i: int|
                0 <= d < 9 && 0 <= i < 81 && old(self).complete(i) && old(self).cand(d, i)
                    ==> #[trigger] final(self).cand(d, i),
            changed == (final(self).candidates != old(self).candidates),
            forall|i: int, d: int|
                #![trigger all_confine_to(*old(self), true, i, d)]
                0 <= i < 81 && 0 <= d < 9 && some_confinement(*old(self), true, i)
                    && all_confine_to(*old(self), true, i, d) ==> forall|e: int|
                    0 <= e < 9 ==> (#[trigger] final(self).cand(e, i) <==> e == d),
            forall|i: int|
                0 <= i < 81 && !(#[trigger] some_confinement(*old(self), true, i)) ==> forall|
                    e: int,
                | 0 <= e < 9 ==> #[trigger] final(self).cand(e, i) == old(self).cand(e, i),
    {
        let masks = self.deduction_masks(true);
        let changed = self.apply_masks(masks);
        proof {
            lemma_forcing_from_masks(*old(self), *self, masks, true);
        }
        changed
    }

    /// Accumulates the allow-masks of the singles rule: wherever a group
    /// confines a digit to one cell, every other digit is disallowed there.
    /// With `skip_complete`, completed cells are left out of the confinement
    /// test.
    fn deduction_masks(&self, skip_complete: bool) -> (masks: [u128; 9])
        requires
            self.wf(),
        ensures
            forall|e: int, i: int|
                0 <= e < 9 && 0 <= i < 81 && self.complete(i) && self.cand(e, i)
                    ==> #[trigger] get_bit(masks[e], i as u128),
            !skip_complete ==> forall|a: Seq<int>, i: int|
                completion_ok(*self, a) && 0 <= i < 81 ==> #[trigger] get_bit(
                    masks[a[i]],
                    i as u128,
                ),
            forall|i: int, e: int|
                0 <= i < 81 && 0 <= e < 9 && !some_confinement(*self, skip_complete, i)
                    ==> #[trigger] get_bit(masks[e], i as u128),
            forall|i: int, d: int, e: int|
                #![trigger get_bit(masks[e], i as u128), all_confine_to(*self, skip_complete, i, d)]
                0 <= i < 81 && 0 <= d < 9 && 0 <= e < 9 && some_confinement(
                    *self,
                    skip_complete,
                    i,
                ) && all_confine_to(*self, skip_complete, i, d) ==> get_bit(masks[e], i as u128)
                    == (e == d),
    {
        let mut masks: [u128; 9] = [
            u128::MAX,
            u128::MAX,
            u128::MAX,
            u128::MAX,
            u128::MAX,
            u128::MAX,
            u128::MAX,
            u128::MAX,
            u128::MAX,
        ];
        proof {
            assert(forall|j: u128| j < 128 ==> #[trigger] get_bit(u128::MAX, j)) by (bit_vector);
            assert forall|i: int| 0 <= i < 81 implies #[trigger] masks_state_at(
                *self,
                skip_complete,
                masks,
                0,
                0,
                i,
            ) by {
                assert forall|e: int| 0 <= e < 9 implies #[trigger] get_bit(
                    masks[e],
                    i as u128,
                ) by {
                    assert(masks[e] == u128::MAX);
                }
                assert(masks_untouched_at(*self, skip_complete, masks, 0, 0, i));
            }
        }
        let n = self.rules.sets.len();
        let mut k: usize = 0;
        while k < n
            invariant
                k <= n,
                self.wf(),
                n == self.groups().len(),
                forall|e: int, i: int|
                    0 <= e < 9 && 0 <= i < 81 && self.complete(i) && self.cand(e, i)
                        ==> #[trigger] get_bit(masks[e], i as u128),
                !skip_complete ==> forall|a: Seq<int>, i: int|
                    completion_ok(*self, a) && 0 <= i < 81 ==> #[trigger] get_bit(
                        masks[a[i]],
                        i as u128,
                    ),
                forall|i: int| 0 <= i < 81 ==> #[trigger] masks_state_at(
                    *self,
                    skip_complete,
                    masks,
                    k as int,
                    0,
                    i,
                ),
            decreases n - k,
        {
            let set = self.rules.sets[k];
            let mut d: usize = 0;
            while d < 9
                invariant
                    d <= 9,
                    k < n,
                    self.wf(),
                    n == self.groups().len(),
                    set == self.groups()[k as int],
                    forall|e: int, i: int|
                        0 <= e < 9 && 0 <= i < 81 && self.complete(i) && self.cand(e, i)
                            ==> #[trigger] get_bit(masks[e], i as u128),
                    !skip_complete ==> forall|a: Seq<int>, i: int|
                        completion_ok(*self, a) && 0 <= i < 81 ==> #[trigger] get_bit(
                            masks[a[i]],
                            i as u128,
                        ),
                    forall|i: int| 0 <= i < 81 ==> #[trigger] masks_state_at(
                        *self,
                        skip_complete,
                        masks,
                        k as int,
                        d as int,
                        i,
                    ),
                decreases 9 - d,
            {
                let ghost pre_masks = masks;
                let mut sc = self.candidates[d] & set;
                if skip_complete {
                    sc = sc & !self.cell_complete;
                }
                proof {
                    assert(sc == rule_view(*self, skip_complete, k as int, d as int));
                    assert forall|i: u128| 81 <= i < 128 implies !get_bit(sc, i) by {
                        assert(!get_bit(self.candidates[d as int], i));
                    }
                }
                if popcount81(sc) == 1 {
                    proof {
                        lemma_count_bits_one(sc, 81);
                    }
                    let mut e: usize = 0;
                    while e < 9
                        invariant
                            e <= 9,
                            d < 9,
                            self.wf(),
                            exists|w: u128|
                                w < 81 && #[trigger] get_bit(sc, w) && (forall|i: u128|
                                    i < 81 && i != w ==> !get_bit(sc, i)),
                            forall|i: u128| 81 <= i < 128 ==> !get_bit(sc, i),
                            forall|f: int, i: int|
                                0 <= f < 9 && 0 <= i < 81 && !get_bit(sc, i as u128)
                                    ==> #[trigger] get_bit(masks[f], i as u128) == get_bit(
                                    pre_masks[f],
                                    i as u128,
                                ),
                            forall|f: int, i: int|
                                e <= f < 9 && 0 <= i < 81 ==> #[trigger] get_bit(
                                    masks[f],
                                    i as u128,
                                ) == get_bit(pre_masks[f], i as u128),
                            forall|f: int, i: int|
                                0 <= f < e && 0 <= i < 81 && get_bit(sc, i as u128) ==> !(
                                #[trigger] get_bit(masks[f], i as u128)),
                        decreases 9 - e,
                    {
                        let m = masks[e];
                        masks[e] = m & !sc;
                        e = e + 1;
                    }
                    let m = masks[d];
                    masks[d] = m | sc;
                    proof {
                        let w = choose|w: u128|
                            w < 81 && #[trigger] get_bit(sc, w) && (forall|i: u128|
                                i < 81 && i != w ==> !get_bit(sc, i));
                        assert(get_bit(self.candidates[d as int], w));
                        assert(self.cand(d as int, w as int));
                        assert(confines(*self, skip_complete, k as int, d as int, w as int));
                        assert forall|f: int, i: int|
                            0 <= f < 9 && 0 <= i < 81 && self.complete(i) && self.cand(f, i)
                                implies #[trigger] get_bit(masks[f], i as u128) by {
                            if get_bit(sc, i as u128) {
                                assert(i == w as int);
                                lemma_count_digits_one(*self, i, 9);
                                assert(self.cell_count(i) == 1);
                                let u = choose|u: int|
                                    0 <= u < 9 && self.cand(u, i) && (forall|d2: int|
                                        0 <= d2 < 9 && d2 != u ==> !self.cand(d2, i));
                                assert(u == f && u == d as int);
                                assert(get_bit(masks[d as int], i as u128));
                            } else {
                                assert(get_bit(pre_masks[f], i as u128));
                            }
                        }
                        if !skip_complete {
                            assert forall|a: Seq<int>, i: int|
                                completion_ok(*self, a) && 0 <= i < 81 implies #[trigger] get_bit(
                                masks[a[i]],
                                i as u128,
                            ) by {
                                assert(self.cand(a[i], i));
                                if get_bit(sc, i as u128) {
                                    assert(i == w as int);
                                    assert(group_covers(*self, a, k as int, d as int));
                                    let y = choose|y: int| #![trigger in_group(*self, k as int, y)]
                                        in_group(*self, k as int, y) && a[y] == d as int;
                                    assert(self.cand(d as int, y));
                                    assert(get_bit(sc, y as u128));
                                    assert(y == w as int);
                                    assert(a[i] == d as int);
                                    assert(get_bit(masks[d as int], i as u128));
                                } else {
                                    assert(get_bit(pre_masks[a[i]], i as u128));
                                }
                            }
                        }
                        assert forall|i: int| 0 <= i < 81 implies #[trigger] masks_state_at(
                            *self,
                            skip_complete,
                            masks,
                            k as int,
                            d as int + 1,
                            i,
                        ) by {
                            if i == w as int {
                                assert forall|e2: int| 0 <= e2 < 9 implies get_bit(
                                    masks[e2],
                                    i as u128,
                                ) == (e2 == d as int) by {
                                    if e2 == d as int {
                                        assert(get_bit(masks[d as int], i as u128));
                                    } else {
                                        assert(!get_bit(masks[e2], i as u128));
                                    }
                                }
                                assert(pair_before(k as int, d as int, k as int, d as int + 1));
                                assert(masks_forced_at(
                                    *self,
                                    skip_complete,
                                    masks,
                                    k as int,
                                    d as int + 1,
                                    i,
                                ));
                            } else {
                                assert(!get_bit(sc, i as u128));
                                assert(!confines(*self, skip_complete, k as int, d as int, i));
                                assert forall|e2: int| 0 <= e2 < 9 implies #[trigger] get_bit(
                                    masks[e2],
                                    i as u128,
                                ) == get_bit(pre_masks[e2], i as u128) by {}
                                assert(masks_state_at(
                                    *self,
                                    skip_complete,
                                    pre_masks,
                                    k as int,
                                    d as int,
                                    i,
                                ));
                                if masks_forced_at(
                                    *self,
                                    skip_complete,
                                    pre_masks,
                                    k as int,
                                    d as int,
                                    i,
                                ) {
                                    let (k2, d2) = choose|k2: int, d2: int|
                                        #[trigger] confines(*self, skip_complete, k2, d2, i)
                                            && pair_before(k2, d2, k as int, d as int) && (forall|
                                            e2: int,
                                        |
                                            0 <= e2 < 9 ==> get_bit(pre_masks[e2], i as u128) == (
                                            e2 == d2));
                                    assert(masks_forced_at(
                                        *self,
                                        skip_complete,
                                        masks,
                                        k as int,
                                        d as int + 1,
                                        i,
                                    ));
                                } else {
                                    assert(masks_untouched_at(
                                        *self,
                                        skip_complete,
                                        pre_masks,
                                        k as int,
                                        d as int,
                                        i,
                                    ));
                                    assert forall|k2: int, d2: int|
                                        pair_before(k2, d2, k as int, d as int + 1) implies !(
                                    #[trigger] confines(*self, skip_complete, k2, d2, i)) by {
                                        if !pair_before(k2, d2, k as int, d as int) {
                                            assert(k2 == k as int && d2 == d as int);
                                        }
                                    }
                                    assert(masks_untouched_at(
                                        *self,
                                        skip_complete,
                                        masks,
                                        k as int,
                                        d as int + 1,
                                        i,
                                    ));
                                }
                            }
                        }
                    }
                } else {
                    proof {
                        assert forall|i: int| 0 <= i < 81 implies #[trigger] masks_state_at(
                            *self,
                            skip_complete,
                            masks,
                            k as int,
                            d as int + 1,
                            i,
                        ) by {
                            assert(masks_state_at(
                                *self,
                                skip_complete,
                                masks,
                                k as int,
                                d as int,
                                i,
                            ));
                            assert(!confines(*self, skip_complete, k as int, d as int, i));
                            if masks_untouched_at(
                                *self,
                                skip_complete,
                                masks,
                                k as int,
                                d as int,
                                i,
                            ) {
                                assert forall|k2: int, d2: int|
                                    pair_before(k2, d2, k as int, d as int + 1) implies !(
                                #[trigger] confines(*self, skip_complete, k2, d2, i)) by {
                                    if !pair_before(k2, d2, k as int, d as int) {
                                        assert(k2 == k as int && d2 == d as int);
                                    }
                                }
                                assert(masks_untouched_at(
                                    *self,
                                    skip_complete,
                                    masks,
                                    k as int,
                                    d as int + 1,
                                    i,
                                ));
                            }
                        }
                    }
                }
                d = d + 1;
            }
            proof {
                assert forall|i: int| 0 <= i < 81 implies #[trigger] masks_state_at(
                    *self,
                    skip_complete,
                    masks,
                    k as int + 1,
                    0,
                    i,
                ) by {
                    assert(masks_state_at(*self, skip_complete, masks, k as int, 9, i));
                    if masks_untouched_at(*self, skip_complete, masks, k as int, 9, i) {
                        assert forall|k2: int, d2: int|
                            pair_before(k2, d2, k as int + 1, 0) implies !(#[trigger] confines(
                            *self,
                            skip_complete,
                            k2,
                            d2,
                            i,
                        )) by {
                            if confines(*self, skip_complete, k2, d2, i) {
                                assert(0 <= d2 < 9);
                                assert(pair_before(k2, d2, k as int, 9));
                            }
                        }
                        assert(masks_untouched_at(*self, skip_complete, masks, k as int + 1, 0, i));
                    }
                }
            }
            k = k + 1;
        }
        proof {
            assert forall|i: int, e: int|
                0 <= i < 81 && 0 <= e < 9 && !some_confinement(*self, skip_complete, i) implies
                #[trigger] get_bit(masks[e], i as u128) by {
                assert(masks_state_at(*self, skip_complete, masks, n as int, 0, i));
                if masks_forced_at(*self, skip_complete, masks, n as int, 0, i) {
                    let (k2, d2) = choose|k2: int, d2: int|
                        #[trigger] confines(*self, skip_complete, k2, d2, i) && pair_before(
                            k2,
                            d2,
                            n as int,
                            0,
                        ) && (forall|e2: int|
                            0 <= e2 < 9 ==> get_bit(masks[e2], i as u128) == (e2 == d2));
                    assert(some_confinement(*self, skip_complete, i));
                } else {
                    assert(masks_untouched_at(*self, skip_complete, masks, n as int, 0, i));
                }
            }
            assert forall|i: int, d0: int, e: int|
                #![trigger get_bit(masks[e], i as u128), all_confine_to(*self, skip_complete, i, d0)]
                0 <= i < 81 && 0 <= d0 < 9 && 0 <= e < 9 && some_confinement(
                    *self,
                    skip_complete,
                    i,
                ) && all_confine_to(*self, skip_complete, i, d0) implies get_bit(
                masks[e],
                i as u128,
            ) == (e == d0) by {
                assert(masks_state_at(*self, skip_complete, masks, n as int, 0, i));
                let (kw, dw) = choose|k2: int, d2: int|
                    #[trigger] confines(*self, skip_complete, k2, d2, i);
                assert(pair_before(kw, dw, n as int, 0));
                if masks_untouched_at(*self, skip_complete, masks, n as int, 0, i) {
                    assert(!confines(*self, skip_complete, kw, dw, i));
                }
                assert(masks_forced_at(*self, skip_complete, masks, n as int, 0, i));
                let (k2, d2) = choose|k2: int, d2: int|
                    #[trigger] confines(*self, skip_complete, k2, d2, i) && pair_before(
                        k2,
                        d2,
                        n as int,
                        0,
                    ) && (forall|e2: int|
                        0 <= e2 < 9 ==> get_bit(masks[e2], i as u128) == (e2 == d2));
                assert(d2 == d0);
            }
        }
        masks
    }

    /// Intersects each digit's candidates with its allow-mask and reports
    /// whether anything changed.
    fn apply_masks(&mut self, masks: [u128; 9]) -> (changed: bool)
        requires
            old(self).wf(),
            forall|e: int, i: int|
                0 <= e < 9 && 0 <= i < 81 && old(self).complete(i) && old(self).cand(e, i)
                    ==> #[trigger] get_bit(masks[e], i as u128),
        ensures
            final(self).wf(),
            final(self).cell_complete == old(self).cell_complete,
            final(self).same_rules(*old(self)),
            forall|d: int, i: int|
                0 <= d < 9 && 0 <= i < 81 && #[trigger] final(self).cand(d, i) ==> old(self).cand(
                    d,
                    i,
                ),
            forall|d: int, i: int|
                0 <= d < 9 && 0 <= i < 81 && old(self).complete(i) && old(self).cand(d, i)
                    ==> #[trigger] final(self).cand(d, i),
            changed == (final(self).candidates != old(self).candidates),
            forall|e: int, i: int|
                0 <= e < 9 && 0 <= i < 81 ==> (#[trigger] final(self).cand(e, i) == (old(
                    self,
                ).cand(e, i) && get_bit(masks[e], i as u128))),
            (forall|a: Seq<int>, i: int|
                completion_ok(*old(self), a) && 0 <= i < 81 ==> #[trigger] get_bit(
                    masks[a[i]],
                    i as u128,
                )) ==> (forall|a: Seq<int>| #[trigger]
                completion_ok(*final(self), a) <==> completion_ok(*old(self), a)),
    {
        let mut changed: bool = false;
        let mut d: usize = 0;
        while d < 9
            invariant
                d <= 9,
                old(self).wf(),
                self.cell_complete == old(self).cell_complete,
                self.rules == old(self).rules,
                self.rubiks_sets == old(self).rubiks_sets,
                forall|e: int, i: int|
                    0 <= e < 9 && 0 <= i < 81 && old(self).complete(i) && old(self).cand(e, i)
                        ==> #[trigger] get_bit(masks[e], i as u128),
                forall|e: int| 0 <= e < 9 ==> wf81(#[trigger] self.candidates[e]),
                forall|e: int| d <= e < 9 ==> #[trigger] self.candidates[e] == old(
                    self,
                ).candidates[e],
                forall|e: int| 0 <= e < d ==> #[trigger] self.candidates[e] == (old(
                    self,
                ).candidates[e] & masks[e]),
                changed == exists|e: int| 0 <= e < d && #[trigger] self.candidates[e] != old(
                    self,
                ).candidates[e],
            decreases 9 - d,
        {
            let ghost pre = *self;
            let ghost chpre = changed;
            let m = self.candidates[d];
            let nm = m & masks[d];
            if nm != m {
                changed = true;
            }
            self.candidates[d] = nm;
            proof {
                let dd = d as int;
                assert(m == old(self).candidates[dd]);
                assert forall|i: u128| 81 <= i < 128 implies !get_bit(nm, i) by {
                    assert(!get_bit(m, i));
                }
                assert forall|e: int|
                    0 <= e < 9 && e != dd implies #[trigger] self.candidates[e]
                    == pre.candidates[e] by {}
                if nm != m {
                    assert(self.candidates[dd] != old(self).candidates[dd]);
                } else {
                    assert(self.candidates[dd] == old(self).candidates[dd]);
                }
                if chpre {
                    let e = choose|e: int|
                        0 <= e < dd && #[trigger] pre.candidates[e] != old(self).candidates[e];
                    assert(self.candidates[e] != old(self).candidates[e]);
                }
            }
            d = d + 1;
        }
        proof {
            let fin = *self;
            assert forall|d2: int, i: int|
                0 <= d2 < 9 && 0 <= i < 81 implies (#[trigger] fin.cand(d2, i) == (old(self).cand(
                d2,
                i,
            ) && get_bit(masks[d2], i as u128))) by {
                assert(fin.candidates[d2] == (old(self).candidates[d2] & masks[d2]));
            }
            assert forall|d2: int, i: int|
                0 <= d2 < 9 && 0 <= i < 81 && #[trigger] fin.cand(d2, i) implies old(self).cand(
                d2,
                i,
            ) by {
                assert(fin.candidates[d2] == (old(self).candidates[d2] & masks[d2]));
            }
            assert forall|d2: int, i: int|
                0 <= d2 < 9 && 0 <= i < 81 && old(self).complete(i) && old(self).cand(d2, i)
                    implies #[trigger] fin.cand(d2, i) by {
                assert(get_bit(masks[d2], i as u128));
                assert(fin.candidates[d2] == (old(self).candidates[d2] & masks[d2]));
            }
            assert(fin.groups() == old(self).groups());
            assert forall|k: int| 0 <= k < fin.groups().len() implies wf81(
                #[trigger] fin.groups()[k],
            ) by {
                assert(wf81(old(self).groups()[k]));
            }
            assert forall|i: int| 0 <= i < 81 && #[trigger] fin.complete(i) implies fin.cell_count(
                i,
            ) == 1 by {
                assert(old(self).complete(i));
                assert(old(self).cell_count(i) == 1);
                assert forall|e: int| 0 <= e < 9 implies #[trigger] fin.cand(e, i) == old(
                    self,
                ).cand(e, i) by {}
                lemma_count_digits_agree(fin, *old(self), i, 9);
            }
            if forall|a: Seq<int>, i: int|
                completion_ok(*old(self), a) && 0 <= i < 81 ==> #[trigger] get_bit(
                    masks[a[i]],
                    i as u128,
                ) {
                assert forall|a: Seq<int>| #[trigger]
                    completion_ok(fin, a) <==> completion_ok(*old(self), a) by {
                    assert(fin.groups() == old(self).groups());
                    if completion_ok(*old(self), a) {
                        assert forall|i: int| 0 <= i < 81 implies fin.cand(#[trigger] a[i], i) by {
                            assert(old(self).cand(a[i], i));
                            assert(get_bit(masks[a[i]], i as u128));
                            assert(fin.candidates[a[i]] == (old(self).candidates[a[i]]
                                & masks[a[i]]));
                        }
                        assert forall|k2: int, i: int|
                            0 <= k2 < fin.groups().len() && #[trigger] in_group(fin, k2, i) implies
                            in_group(*old(self), k2, i) by {}
                        assert forall|k2: int, d2: int|
                            0 <= k2 < fin.groups().len() && 0 <= d2 < 9 implies
                            #[trigger] group_covers(fin, a, k2, d2) by {
                            assert(group_covers(*old(self), a, k2, d2));
                            let y = choose|y: int| #![trigger in_group(*old(self), k2, y)]
                                in_group(*old(self), k2, y) && a[y] == d2;
                            assert(in_group(fin, k2, y) && a[y] == d2);
                        }
                        assert(completion_ok(fin, a));
                    }
                    if completion_ok(fin, a) {
                        lemma_subset_reflects_completions(fin, *old(self), a);
                    }
                }
            }
            if changed {
                let e = choose|e: int|
                    0 <= e < 9 && #[trigger] fin.candidates[e] != old(self).candidates[e];
                assert(fin.candidates@[e] != old(self).candidates@[e]);
                assert(fin.candidates != old(self).candidates);
            } else {
                assert forall|e: int| 0 <= e < 9 implies #[trigger] fin.candidates[e] == old(
                    self,
                ).candidates[e] by {}
                assert(fin.candidates@ =~= old(self).candidates@);
                assert(fin.candidates == old(self).candidates);
            }
        }
        changed
    }

    /// Propagates completions and eliminations, re-checking legality and
    /// solvedness between rounds, until the candidates stop changing.
    /// Returns 0 when the board turned out illegal, 1 when it is solved, and
    /// 2 when it is legal, unsolved and stuck, so that only branching can
    /// make progress.
    fn propagate_to_fixpoint(&mut self) -> (r: u8)
        requires
            old(self).wf(),
        ensures
            final(self).wf(),
            final(self).same_rules(*old(self)),
            forall|d: int, i: int|
                0 <= d < 9 && 0 <= i < 81 && #[trigger] final(self).cand(d, i) ==> old(self).cand(
                    d,
                    i,
                ),
            final(self).total_cands() <= old(self).total_cands(),
            r <= 2,
            r == 0 ==> !final(self).spec_legal(),
            r == 1 ==> final(self).spec_legal() && final(self).spec_solved(),
            r == 2 ==> final(self).spec_legal() && !final(self).spec_solved() && exists|i: int|
                0 <= i < 81 && final(self).cell_count(i) > 1,
            r == 2 ==> stuck_fixed_point(*final(self)),
            forall|a: Seq<int>| #[trigger]
                completion_ok(*final(self), a) <==> completion_ok(*old(self), a),
            !old(self).spec_legal() ==> r == 0 && *final(self) == *old(self),
            old(self).spec_legal() && old(self).spec_solved() ==> r == 1 && *final(self) == *old(
                self,
            ),
    {
        loop
            invariant
                *self == *old(self) || (old(self).spec_legal() && !old(self).spec_solved()),
                self.wf(),
                self.same_rules(*old(self)),
                forall|d: int, i: int|
                    0 <= d < 9 && 0 <= i < 81 && #[trigger] self.cand(d, i) ==> old(self).cand(
                        d,
                        i,
                    ),
                self.total_cands() <= old(self).total_cands(),
                forall|a: Seq<int>| #[trigger]
                    completion_ok(*self, a) <==> completion_ok(*old(self), a),
            decreases self.total_cands(),
        {
            let ghost s0 = *self;
            let before = self.clone();
            proof {
                lemma_state_transfer(before, s0);
            }
            if !self.is_legal() {
                return 0;
            }
            if self.is_solved() {
                return 1;
            }
            self.update_cell_complete();
            let ghost s1 = *self;
            self.update_candidates();
            let ghost s2 = *self;
            proof {
                assert forall|d: int, i: int|
                    0 <= d < 9 && 0 <= i < 81 && #[trigger] s2.cand(d, i) implies s0.cand(
                    d,
                    i,
                ) by {
                    assert(s1.cand(d, i) == s0.cand(d, i)) by {
                        assert(s1.candidates[d] == s0.candidates[d]);
                    }
                }
                assert forall|d: int, i: int|
                    0 <= d < 9 && 0 <= i < 81 && #[trigger] self.cand(d, i) implies old(self).cand(
                    d,
                    i,
                ) by {
                    assert(s0.cand(d, i) ==> old(self).cand(d, i));
                }
                lemma_total_le(*self, s0);
                assert forall|a: Seq<int>| #[trigger]
                    completion_ok(*self, a) <==> completion_ok(*old(self), a) by {
                    assert(completion_ok(s2, a) <==> completion_ok(s1, a));
                    assert(completion_ok(s1, a) <==> completion_ok(s0, a));
                    assert(completion_ok(s0, a) <==> completion_ok(*old(self), a));
                }
            }
            if !self.is_legal() {
                return 0;
            }
            if self.is_solved() {
                return 1;
            }
            if *self == before {
                self.optimize();
                let ghost s3 = *self;
                proof {
                    assert forall|d: int, i: int|
                        0 <= d < 9 && 0 <= i < 81 && #[trigger] self.cand(d, i) implies s0.cand(
                        d,
                        i,
                    ) by {
                        assert(s2.cand(d, i) ==> s0.cand(d, i));
                    }
                    assert forall|a: Seq<int>| #[trigger]
                        completion_ok(*self, a) <==> completion_ok(*old(self), a) by {
                        assert(completion_ok(s3, a) <==> completion_ok(s2, a));
                        assert(completion_ok(s2, a) <==> completion_ok(*old(self), a));
                    }
                }
                if *self == before {
                    proof {
                        assert(s3.candidates == s0.candidates);
                        assert(s3.cell_complete == s2.cell_complete);
                        assert(s2.candidates == s0.candidates);
                        lemma_state_transfer(s3, s2);
                        assert(s3.spec_legal());
                        assert(!s3.spec_solved());
                        let w = choose|w: int| 0 <= w < 81 && !s3.complete(w);
                        assert(s2.complete(w) == (s0.complete(w) || s0.cell_count(w) == 1)) by {
                            assert(s2.cell_complete == s1.cell_complete);
                        }
                        assert(s0.cell_count(w) != 1);
                        assert(s3.cell_count(w) == s0.cell_count(w)) by {
                            assert forall|d: int| 0 <= d < 9 implies #[trigger] s3.cand(d, w)
                                == s0.cand(d, w) by {
                                assert(s3.candidates[d] == s0.candidates[d]);
                            }
                            lemma_count_digits_agree(s3, s0, w, 9);
                        }
                        assert(s3.cell_count(w) > 1);
                        assert forall|d: int|
                            0 <= d < 9 implies #[trigger] crate::engine::elim_upto(
                            s3.candidates[d],
                            s3.cell_complete,
                            s3.groups(),
                            s3.groups().len() as int,
                        ) == s3.candidates[d] by {
                            assert(s3.candidates[d] == s1.candidates[d]);
                            assert(s3.cell_complete == s1.cell_complete);
                            assert(s3.groups() == s1.groups());
                            assert(s2.candidates[d] == crate::engine::elim_upto(
                                s1.candidates[d],
                                s1.cell_complete,
                                s1.groups(),
                                s1.groups().len() as int,
                            ));
                            assert(s3.candidates[d] == s2.candidates[d]);
                        }
                        assert forall|i: int|
                            0 <= i < 81 && #[trigger] s3.cell_count(i) == 1 implies s3.complete(
                            i,
                        ) by {
                            assert(s3.cell_count(i) == s0.cell_count(i)) by {
                                assert forall|e: int| 0 <= e < 9 implies #[trigger] s3.cand(e, i)
                                    == s0.cand(e, i) by {
                                    assert(s3.candidates[e] == s0.candidates[e]);
                                }
                                lemma_count_digits_agree(s3, s0, i, 9);
                            }
                            assert(s1.complete(i));
                        }
                        assert forall|k2: int, d2: int, i2: int|
                            0 <= k2 < s3.groups().len() && 0 <= d2 < 9 && 0 <= i2 < 81 implies
                            #[trigger] confines(s3, false, k2, d2, i2) == confines(
                            s2,
                            false,
                            k2,
                            d2,
                            i2,
                        ) by {
                            assert(s3.candidates[d2] == s2.candidates[d2]);
                            assert(s3.groups()[k2] == s2.groups()[k2]);
                            assert(rule_view(s3, false, k2, d2) == rule_view(s2, false, k2, d2));
                        }
                        assert forall|i2: int, d2: int|
                            #![trigger all_confine_to(s3, false, i2, d2)]
                            0 <= i2 < 81 && 0 <= d2 < 9 && some_confinement(s3, false, i2)
                                && all_confine_to(s3, false, i2, d2) implies forall|e: int|
                            0 <= e < 9 ==> (#[trigger] s3.cand(e, i2) <==> e == d2) by {
                            let (kw, dw) = choose|kw: int, dw: int|
                                #[trigger] confines(s3, false, kw, dw, i2);
                            assert(confines(s2, false, kw, dw, i2));
                            assert(some_confinement(s2, false, i2));
                            assert forall|k3: int, d3: int|
                                #[trigger] confines(s2, false, k3, d3, i2) implies d3 == d2 by {
                                assert(confines(s3, false, k3, d3, i2));
                            }
                            assert(all_confine_to(s2, false, i2, d2));
                        }
                        assert(stuck_fixed_point(s3));
                    }
                    return 2;
                }
                proof {
                    assert(self.candidates != before.candidates);
                    lemma_propagation_step_shrinks(*self, before, s0);
                    lemma_total_nonneg(*self);
                    assert(self.total_cands() < s0.total_cands());
                }
            } else {
                proof {
                    assert forall|d: int, i: int|
                        0 <= d < 9 && 0 <= i < 81 && #[trigger] self.cand(d, i) implies s0.cand(
                        d,
                        i,
                    ) by {
                        assert(s2.cand(d, i) ==> s0.cand(d, i));
                    }
                    assert(self.candidates != before.candidates);
                    lemma_propagation_step_shrinks(*self, before, s0);
                    lemma_total_nonneg(*self);
                    assert(self.total_cands() < s0.total_cands());
                }
            }
            proof {
                assert forall|d: int, i: int|
                    0 <= d < 9 && 0 <= i < 81 && #[trigger] self.cand(d, i) implies old(self).cand(
                    d,
                    i,
                ) by {
                    assert(s0.cand(d, i) ==> old(self).cand(d, i));
                }
            }
        }
    }

    /// Runs the deduction rules in order until one reports a change or all
    /// are exhausted.
    pub fn optimize(&mut self)
        requires
            old(self).wf(),
        ensures
            final(self).wf(),
            final(self).cell_complete == old(self).cell_complete,
            final(self).same_rules(*old(self)),
            forall|d: int, i: int|
                0 <= d < 9 && 0 <= i < 81 && #[trigger] final(self).cand(d, i) ==> old(self).cand(
                    d,
                    i,
                ),
            forall|d: int, i: int|
                0 <= d < 9 && 0 <= i < 81 && old(self).complete(i) && old(self).cand(d, i)
                    ==> #[trigger] final(self).cand(d, i),
            forall|a: Seq<int>| #[trigger]
                completion_ok(*final(self), a) <==> completion_ok(*old(self), a),
            forall|i: int, d: int|
                #![trigger all_confine_to(*old(self), false, i, d)]
                0 <= i < 81 && 0 <= d < 9 && some_confinement(*old(self), false, i)
                    && all_confine_to(*old(self), false, i, d) ==> forall|e: int|
                    0 <= e < 9 ==> (#[trigger] final(self).cand(e, i) <==> e == d),
            forall|i: int|
                0 <= i < 81 && !(#[trigger] some_confinement(*old(self), false, i)) ==> forall|
                    e: int,
                | 0 <= e < 9 ==> #[trigger] final(self).cand(e, i) == old(self).cand(e, i),
    {
        if self.hidden_naked_singles_pairs_triples() {
            return ;
        }
    }

    /// Classifies the board: 0 = no completion, 1 = exactly one completion,
    /// with the board mutated into it, 2 = more than one completion
    /// confirmed or branching suppressed, 3 = branch budget exhausted.
    ///
    /// The codes carry proofs: 0 only comes back when no completion exists,
    /// 1 hands over the one completion the starting board admits, and 2
    /// without branch suppression certifies at least two completions and
    /// never adopts a witness.  An illegal board answers 0 untouched and a
    /// solved legal one answers 1 untouched; candidates only ever shrink.
    ///
    /// `recursion_count` is the branch counter shared by the whole search
    /// tree; a call entered with the counter at the ceiling gives up at once,
    /// leaving board and counter as they were, and 3 is only ever returned
    /// with the counter at or past the ceiling.  `stop_if_bifurcate` turns
    /// the stuck case into an immediate 2 without spending any budget.
    pub fn solve(&mut self, recursion_count: &mut u128, stop_if_bifurcate: bool) -> (r: u128)
        requires
            old(self).wf(),
        ensures
            final(self).wf(),
            final(self).same_rules(*old(self)),
            r <= 3,
            *old(recursion_count) <= *final(recursion_count),
            *final(recursion_count) <= *old(recursion_count) || *final(recursion_count)
                <= RECURSION_LIMIT + old(self).total_cands(),
            *old(recursion_count) >= RECURSION_LIMIT ==> r == 3 && *final(self) == *old(self)
                && *final(recursion_count) == *old(recursion_count),
            r == 3 ==> *final(recursion_count) >= RECURSION_LIMIT,
            !old(self).spec_legal() && *old(recursion_count) < RECURSION_LIMIT ==> r == 0
                && *final(self) == *old(self) && *final(recursion_count) == *old(recursion_count),
            old(self).spec_legal() && old(self).spec_solved() && *old(recursion_count)
                < RECURSION_LIMIT ==> r == 1 && *final(self) == *old(self)
                && *final(recursion_count) == *old(recursion_count),
            stop_if_bifurcate ==> *final(recursion_count) == *old(recursion_count),
            stop_if_bifurcate && *old(recursion_count) < RECURSION_LIMIT ==> r != 3,
            r == 2 ==> final(self).spec_legal() && !final(self).spec_solved()
                && stuck_fixed_point(*final(self)),
            forall|d: int, i: int|
                0 <= d < 9 && 0 <= i < 81 && #[trigger] final(self).cand(d, i) ==> old(self).cand(
                    d,
                    i,
                ),
            r == 1 ==> final(self).spec_legal() && final(self).spec_solved(),
            r == 0 ==> forall|a: Seq<int>| !(#[trigger] completion_ok(*old(self), a)),
            r == 1 ==> completion_ok(*old(self), assignment(*final(self))),
            r == 1 ==> forall|a: Seq<int>| #[trigger] completion_ok(*old(self), a) ==> a
                == assignment(*final(self)),
            r == 2 && !stop_if_bifurcate ==> two_completions(*old(self)),
    {
        let ghost m = old(self).total_cands();
        proof {
            assert forall|d: int|
                0 <= d < 9 implies crate::bits::count_bits(#[trigger] self.candidates[d], 81)
                <= 81 by {
                crate::bits::lemma_count_bits_bounds(self.candidates[d], 81);
            }
            assert(m <= 729);
        }
        self.solve_rec(recursion_count, stop_if_bifurcate, Ghost(m))
    }

    /// The recursive body of `solve`, measured by the total candidate count:
    /// propagation only removes candidates and each branch pins a cell, so
    /// the ghost bound `m` strictly decreases down the tree.
    fn solve_rec(
        &mut self,
        recursion_count: &mut u128,
        stop_if_bifurcate: bool,
        Ghost(m): Ghost<int>,
    ) -> (r: u128)
        requires
            old(self).wf(),
            old(self).total_cands() <= m,
            m <= 729,
        ensures
            final(self).wf(),
            final(self).same_rules(*old(self)),
            r <= 3,
            *old(recursion_count) <= *final(recursion_count),
            *final(recursion_count) <= *old(recursion_count) || *final(recursion_count)
                <= RECURSION_LIMIT + m,
            *old(recursion_count) >= RECURSION_LIMIT ==> r == 3 && *final(self) == *old(self)
                && *final(recursion_count) == *old(recursion_count),
            r == 3 ==> *final(recursion_count) >= RECURSION_LIMIT,
            !old(self).spec_legal() && *old(recursion_count) < RECURSION_LIMIT ==> r == 0
                && *final(self) == *old(self) && *final(recursion_count) == *old(recursion_count),
            old(self).spec_legal() && old(self).spec_solved() && *old(recursion_count)
                < RECURSION_LIMIT ==> r == 1 && *final(self) == *old(self)
                && *final(recursion_count) == *old(recursion_count),
            stop_if_bifurcate ==> *final(recursion_count) == *old(recursion_count),
            stop_if_bifurcate && *old(recursion_count) < RECURSION_LIMIT ==> r != 3,
            r == 2 ==> final(self).spec_legal() && !final(self).spec_solved()
                && stuck_fixed_point(*final(self)),
            forall|d: int, i: int|
                0 <= d < 9 && 0 <= i < 81 && #[trigger] final(self).cand(d, i) ==> old(self).cand(
                    d,
                    i,
                ),
            r == 1 ==> final(self).spec_legal() && final(self).spec_solved(),
            r == 0 ==> forall|a: Seq<int>| !(#[trigger] completion_ok(*old(self), a)),
            r == 1 ==> completion_ok(*old(self), assignment(*final(self))),
            r == 1 ==> forall|a: Seq<int>| #[trigger] completion_ok(*old(self), a) ==> a
                == assignment(*final(self)),
            r == 2 && !stop_if_bifurcate ==> two_completions(*old(self)),
        decreases m,
    {
        if *recursion_count >= RECURSION_LIMIT {
            return 3;
        }
        let outcome = self.propagate_to_fixpoint();
        if outcome == 0 {
            proof {
                assert forall|a: Seq<int>| !(#[trigger] completion_ok(*old(self), a)) by {
                    if completion_ok(*old(self), a) {
                        assert(completion_ok(*self, a));
                        lemma_completion_legal(*self, a);
                    }
                }
            }
            return 0;
        }
        if outcome == 1 {
            proof {
                lemma_solved_assignment(*self);
                assert(completion_ok(*old(self), assignment(*self)));
                assert forall|a: Seq<int>| #[trigger] completion_ok(*old(self), a) implies a
                    == assignment(*self) by {
                    assert(completion_ok(*self, a));
                    assert(a =~= assignment(*self));
                }
            }
            return 1;
        }
        if stop_if_bifurcate {
            return 2;
        }
        let choice = self.find_lowest_candidates_unsolved();
        let index = choice.0;
        let cands = self.candidates_vec(index);
        let ghost base = *self;
        proof {
            crate::solver::lemma_count_digits_zero(*self, index as int, 9);
            crate::solver::lemma_count_digits_bounds(*self, index as int, 9);
            let dw = choose|dw: int| 0 <= dw < 9 && #[trigger] self.cand(dw, index as int);
            assert(get_bit(self.candidates[dw], index as u128));
            crate::bits::lemma_count_bits_zero(self.candidates[dw], 81);
            lemma_total_nonneg(*self);
            assert forall|d2: int|
                0 <= d2 < 9 implies crate::bits::count_bits(#[trigger] self.candidates[d2], 81)
                >= 0 by {
                crate::bits::lemma_count_bits_bounds(self.candidates[d2], 81);
            }
            assert(self.total_cands() >= 1);
            assert(m >= 1);
        }
        let mut solutions_found: u8 = 0;
        let mut potential: Option<Board> = None;
        let mut ci: usize = 0;
        while ci < cands.len()
            invariant
                !stop_if_bifurcate,
                base == *self,
                self.wf(),
                self.same_rules(*old(self)),
                self.total_cands() <= m,
                1 <= m <= 729,
                old(self).spec_legal(),
                !old(self).spec_solved(),
                *old(recursion_count) < RECURSION_LIMIT,
                self.spec_legal(),
                !self.spec_solved(),
                stuck_fixed_point(*self),
                forall|d: int, i: int|
                    0 <= d < 9 && 0 <= i < 81 && #[trigger] self.cand(d, i) ==> old(self).cand(
                        d,
                        i,
                    ),
                *recursion_count <= RECURSION_LIMIT + m - 1,
                index < 81,
                self.cell_count(index as int) > 1,
                forall|j: int|
                    0 <= j < cands@.len() ==> #[trigger] cands@[j] < 9 && self.cand(
                        cands@[j] as int,
                        index as int,
                    ),
                forall|j: int, j2: int| 0 <= j < j2 < cands@.len() ==> cands@[j] < cands@[j2],
                *old(recursion_count) <= *recursion_count,
                solutions_found <= 1,
                (solutions_found == 1) == (potential is Some),
                potential matches Some(b) ==> b.wf() && b.spec_legal() && b.spec_solved()
                    && b.same_rules(*old(self)) && (forall|d: int, i: int|
                    0 <= d < 9 && 0 <= i < 81 && #[trigger] b.cand(d, i) ==> old(self).cand(d, i)),
                forall|a: Seq<int>| #[trigger]
                    completion_ok(base, a) <==> completion_ok(*old(self), a),
                solutions_found == 0 ==> forall|a: Seq<int>| #[trigger] completion_ok(base, a)
                    ==> !(exists|j: int| 0 <= j < ci && a[index as int] == #[trigger] cands@[j]),
                potential matches Some(pb) ==> (completion_ok(*old(self), assignment(pb)) && (
                forall|a: Seq<int>| #[trigger]
                    completion_ok(base, a) && (exists|j: int|
                        0 <= j < ci && a[index as int] == #[trigger] cands@[j]) ==> a == assignment(
                        pb,
                    )) && (exists|j: int|
                    0 <= j < ci && #[trigger] cands@[j] == assignment(pb)[index as int])),
            decreases cands.len() - ci,
        {
            let rc = *recursion_count;
            proof {
                assert(rc < u128::MAX);
            }
            if rc < u128::MAX {
                *recursion_count = rc + 1;
            }
            let digit = cands[ci];
            let mut child = self.clone();
            let ghost child0 = child;
            proof {
                lemma_state_transfer(child, *self);
            }
            child.set_cell(digit, index);
            let ghost childcall = child;
            proof {
                assert(self.cand(digit as int, index as int));
                lemma_other_digit(*self, index as int, digit as int);
                let e = choose|e: int|
                    0 <= e < 9 && e != digit as int && #[trigger] self.cand(e, index as int);
                assert forall|d: int, i: int|
                    0 <= d < 9 && 0 <= i < 81 implies #[trigger] child.cand(d, i) == (if i
                    == index as int {
                    d == digit as int
                } else {
                    base.cand(d, i)
                }) by {
                    if i != index as int {
                        assert(child0.cand(d, i) == self.cand(d, i)) by {
                            assert(child0.candidates[d] == self.candidates[d]);
                        }
                    }
                }
                assert(!child.cand(e, index as int));
                lemma_total_lt(child, *self, e, index as int);
                lemma_total_nonneg(child);
                assert(child.total_cands() < self.total_cands());
                assert(child.total_cands() < m);
                lemma_branch_partition(base, childcall, digit as int, index as int);
            }
            let result = child.solve_rec(
                recursion_count,
                stop_if_bifurcate,
                Ghost(child.total_cands()),
            );
            if result == 3 {
                return 3;
            }
            if result == 2 {
                proof {
                    assert(two_completions(childcall));
                    let (a1, a2) = choose|a1: Seq<int>, a2: Seq<int>|
                        #![trigger completion_ok(childcall, a1), completion_ok(childcall, a2)]
                        completion_ok(childcall, a1) && completion_ok(childcall, a2) && a1 != a2;
                    assert(completion_ok(base, a1));
                    assert(completion_ok(base, a2));
                    assert(completion_ok(*old(self), a1) && completion_ok(*old(self), a2));
                    assert(two_completions(*old(self)));
                }
                return 2;
            }
            if result == 1 {
                proof {
                    assert(completion_ok(childcall, assignment(child)));
                    assert(completion_ok(base, assignment(child)) && assignment(
                        child,
                    )[index as int] == digit as int);
                    assert(completion_ok(*old(self), assignment(child)));
                }
                if solutions_found >= 1 {
                    proof {
                        let pb = potential.unwrap();
                        let j = choose|j: int|
                            0 <= j < ci && #[trigger] cands@[j] == assignment(pb)[index as int];
                        assert(cands@[j] < cands@[ci as int]);
                        assert(assignment(pb)[index as int] != assignment(child)[index as int]);
                        assert(assignment(pb) != assignment(child));
                        assert(completion_ok(*old(self), assignment(pb)) && completion_ok(
                            *old(self),
                            assignment(child),
                        ));
                        assert(two_completions(*old(self)));
                    }
                    return 2;
                }
                solutions_found = 1;
                potential = Some(child);
                proof {
                    assert forall|a: Seq<int>| #[trigger]
                        completion_ok(base, a) && (exists|j: int|
                            0 <= j < ci + 1 && a[index as int] == #[trigger] cands@[j]) implies a
                        == assignment(potential.unwrap()) by {
                        let j = choose|j: int|
                            0 <= j < ci + 1 && a[index as int] == #[trigger] cands@[j];
                        assert(j == ci as int);
                        assert(a[index as int] == digit as int);
                        assert(completion_ok(childcall, a));
                        assert(a == assignment(potential.unwrap()));
                    }
                    assert(cands@[ci as int] == assignment(potential.unwrap())[index as int]);
                }
            } else {
                proof {
                    assert(result == 0);
                    if solutions_found == 0 {
                        assert forall|a: Seq<int>| #[trigger] completion_ok(base, a) implies !(
                        exists|j: int|
                            0 <= j < ci + 1 && a[index as int] == #[trigger] cands@[j]) by {
                            if exists|j: int|
                                0 <= j < ci + 1 && a[index as int] == #[trigger] cands@[j] {
                                let j = choose|j: int|
                                    0 <= j < ci + 1 && a[index as int] == #[trigger] cands@[j];
                                if j == ci as int {
                                    assert(completion_ok(childcall, a));
                                }
                            }
                        }
                    } else {
                        let pb = potential.unwrap();
                        assert forall|a: Seq<int>| #[trigger]
                            completion_ok(base, a) && (exists|j: int|
                                0 <= j < ci + 1 && a[index as int] == #[trigger] cands@[j]) implies
                            a == assignment(pb) by {
                            let j = choose|j: int|
                                0 <= j < ci + 1 && a[index as int] == #[trigger] cands@[j];
                            if j == ci as int {
                                assert(completion_ok(childcall, a));
                            }
                        }
                    }
                }
            }
            ci = ci + 1;
        }
        proof {
            assert forall|a: Seq<int>| #[trigger] completion_ok(base, a) implies (exists|j: int|
                0 <= j < cands@.len() && a[index as int] == #[trigger] cands@[j]) by {
                assert(base.cand(a[index as int], index as int));
                let d = a[index as int];
                assert(self.cand(d, index as int));
                let j = choose|j: int| 0 <= j < cands@.len() && #[trigger] cands@[j] == d;
                assert(a[index as int] == cands@[j]);
            }
        }
        match potential {
            Some(b) => {
                proof {
                    assert forall|a: Seq<int>| #[trigger] completion_ok(*old(self), a) implies a
                        == assignment(b) by {
                        assert(completion_ok(base, a));
                    }
                }
                *self = b;
                1
            },
            None => {
                proof {
                    assert forall|a: Seq<int>| !(#[trigger] completion_ok(*old(self), a)) by {
                        if completion_ok(*old(self), a) {
                            assert(completion_ok(base, a));
                        }
                    }
                }
                0
            },
        }
    }
}

} // verus!
