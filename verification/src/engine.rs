//! Constraint propagation: completion marking and candidate elimination.
//!
//! Elimination is specified by a fold over the groups, [`elim_upto`], and its
//! pointwise characterization [`lemma_elim_upto_bits`]: a candidate bit
//! survives a sweep exactly when no group with a completed copy of the digit
//! eliminates it.  From that shape follow the facts the solver needs:
//! elimination only removes candidates, never touches a completed cell's
//! digit, and is idempotent.

use vstd::prelude::*;

use crate::bits::get_bit;
use crate::bits::group_bit_lemmas;
use crate::bits::lemma_bit_ext;
use crate::bits::wf81;
use crate::completion::completion_ok;
use crate::completion::lemma_completion_same_state;
use crate::completion::lemma_elim_preserves_completions;
use crate::completion::lemma_subset_reflects_completions;
use crate::solver::count_digits;
use crate::solver::lemma_count_digits_agree;
use crate::solver::Board;

verus! {

broadcast use group_bit_lemmas;

/// Some cell of group `g` is completed and still carries the digit whose
/// candidate mask is `c`.
pub open spec fn digit_solved_in(c: u128, comp: u128, g: u128) -> bool {
    exists|w: u128| w < 128 && get_bit(g, w) && get_bit(comp, w) && #[trigger] get_bit(c, w)
}

/// One elimination step: if group `g` holds a completed copy of the digit,
/// remove the digit's candidacy from every other cell of `g`.
pub open spec fn elim_step(c: u128, comp: u128, g: u128) -> u128 {
    let solved = (g & comp) & c;
    if solved == 0 {
        c
    } else {
        c & !(g & !solved)
    }
}

/// The digit's candidate mask after sweeping the first `n` groups in order.
pub open spec fn elim_upto(c: u128, comp: u128, sets: Seq<u128>, n: int) -> u128
    decreases n,
{
    if n <= 0 {
        c
    } else {
        elim_step(elim_upto(c, comp, sets, n - 1), comp, sets[n - 1])
    }
}

/// Group `g`, judged on the original mask `c`, eliminates bit `i`.
pub open spec fn elim_hit(c: u128, comp: u128, g: u128, i: u128) -> bool {
    digit_solved_in(c, comp, g) && get_bit(g, i) && !(get_bit(comp, i) && get_bit(c, i))
}

/// A nonzero mask has a set bit.
pub proof fn lemma_nonzero_has_bit(m: u128)
    requires
        m != 0,
    ensures
        exists|i: u128| i < 128 && #[trigger] get_bit(m, i),
{
    if forall|i: u128| i < 128 ==> !(#[trigger] get_bit(m, i)) {
        assert forall|i: u128| i < 128 implies get_bit(m, i) == get_bit(0u128, i) by {
            assert(!get_bit(m, i));
        }
        lemma_bit_ext(m, 0);
    }
}

/// Pointwise shape of a whole elimination sweep: a bit survives exactly when
/// it was set before and no group eliminates it, each group judged on the
/// original mask.
pub proof fn lemma_elim_upto_bits(c: u128, comp: u128, sets: Seq<u128>, n: int)
    requires
        0 <= n <= sets.len(),
    ensures
        forall|i: u128|
            i < 128 ==> get_bit(elim_upto(c, comp, sets, n), i) == (get_bit(c, i) && !(exists|j: int|
                0 <= j < n && elim_hit(c, comp, #[trigger] sets[j], i))),
    decreases n,
{
    if n > 0 {
        lemma_elim_upto_bits(c, comp, sets, n - 1);
        let prev = elim_upto(c, comp, sets, n - 1);
        let cur = elim_upto(c, comp, sets, n);
        let g = sets[n - 1];
        let solved = (g & comp) & prev;
        let solved0 = (g & comp) & c;
        assert forall|w: u128| w < 128 implies get_bit(solved, w) == get_bit(solved0, w) by {
            if get_bit(comp, w) && get_bit(c, w) {
                assert forall|j: int| 0 <= j < n - 1 implies !elim_hit(c, comp, sets[j], w) by {}
                assert(get_bit(prev, w) == get_bit(c, w));
            } else {
                if get_bit(prev, w) {
                    assert(get_bit(c, w));
                }
            }
        }
        lemma_bit_ext(solved, solved0);
        assert forall|i: u128| i < 128 implies get_bit(cur, i) == (get_bit(c, i) && !(exists|j: int|
            0 <= j < n && elim_hit(c, comp, #[trigger] sets[j], i))) by {
            if solved0 == 0 {
                assert(cur == prev);
                assert forall|w: u128|
                    w < 128 && get_bit(g, w) && get_bit(comp, w) implies !get_bit(c, w) by {
                    assert(get_bit(solved0, w) == (get_bit(g, w) && get_bit(comp, w) && get_bit(
                        c,
                        w,
                    )));
                    assert(!get_bit(solved0, w));
                }
                assert(!digit_solved_in(c, comp, g));
                assert forall|j: int| 0 <= j < n && elim_hit(c, comp, sets[j], i) implies 0 <= j < n
                    - 1 && elim_hit(c, comp, sets[j], i) by {
                    assert(j != n - 1);
                }
            } else {
                assert(cur == prev & !(g & !solved));
                lemma_nonzero_has_bit(solved0);
                let w = choose|w: u128| w < 128 && #[trigger] get_bit(solved0, w);
                assert(get_bit(g, w) && get_bit(comp, w) && get_bit(c, w));
                assert(digit_solved_in(c, comp, g));
                if get_bit(cur, i) {
                    assert(get_bit(prev, i) && get_bit(c, i));
                    assert(!elim_hit(c, comp, g, i) && !(exists|j: int|
                        0 <= j < n - 1 && elim_hit(c, comp, #[trigger] sets[j], i)));
                    assert forall|j: int| 0 <= j < n implies !elim_hit(c, comp, sets[j], i) by {
                        if j < n - 1 {
                        }
                    }
                } else {
                    if get_bit(c, i) && !(exists|j: int|
                        0 <= j < n && elim_hit(c, comp, #[trigger] sets[j], i)) {
                        assert(!elim_hit(c, comp, g, i));
                        assert(get_bit(prev, i));
                        assert(get_bit(g, i) ==> (get_bit(comp, i) && get_bit(c, i)));
                        assert(get_bit(g, i) ==> get_bit(solved, i));
                        assert(!get_bit(cur, i) == (get_bit(g, i) && !get_bit(solved, i)));
                        assert(false);
                    }
                }
            }
        }
    }
}

/// Elimination only clears candidate bits.
pub proof fn lemma_elim_upto_subset(c: u128, comp: u128, sets: Seq<u128>, n: int)
    requires
        0 <= n <= sets.len(),
    ensures
        forall|i: u128| i < 128 && get_bit(elim_upto(c, comp, sets, n), i) ==> get_bit(c, i),
{
    lemma_elim_upto_bits(c, comp, sets, n);
}

/// Elimination never removes the digit of a completed cell.
pub proof fn lemma_elim_upto_protects(c: u128, comp: u128, sets: Seq<u128>, n: int)
    requires
        0 <= n <= sets.len(),
    ensures
        forall|i: u128|
            i < 128 && get_bit(comp, i) && get_bit(c, i) ==> get_bit(
                elim_upto(c, comp, sets, n),
                i,
            ),
{
    lemma_elim_upto_bits(c, comp, sets, n);
    assert forall|i: u128|
        i < 128 && get_bit(comp, i) && get_bit(c, i) implies get_bit(
        elim_upto(c, comp, sets, n),
        i,
    ) by {
        assert forall|j: int| 0 <= j < n implies !elim_hit(c, comp, sets[j], i) by {}
    }
}

/// Elimination reaches its fixed point in a single sweep: applying the same
/// sweep a second time returns its input unchanged.
pub proof fn lemma_eliminate_idempotent(c: u128, comp: u128, sets: Seq<u128>)
    ensures
        elim_upto(
            elim_upto(c, comp, sets, sets.len() as int),
            comp,
            sets,
            sets.len() as int,
        ) == elim_upto(c, comp, sets, sets.len() as int),
{
    let n = sets.len() as int;
    let c1 = elim_upto(c, comp, sets, n);
    let c2 = elim_upto(c1, comp, sets, n);
    lemma_elim_upto_bits(c, comp, sets, n);
    lemma_elim_upto_bits(c1, comp, sets, n);
    assert forall|i: u128| i < 128 implies get_bit(c2, i) == get_bit(c1, i) by {
        if get_bit(c1, i) {
            assert(get_bit(c, i));
            assert forall|j: int| 0 <= j < n implies !elim_hit(c1, comp, sets[j], i) by {
                assert(!elim_hit(c, comp, sets[j], i));
                if digit_solved_in(c1, comp, sets[j]) {
                    let w = choose|w: u128|
                        w < 128 && get_bit(sets[j], w) && get_bit(comp, w) && #[trigger] get_bit(
                            c1,
                            w,
                        );
                    assert(get_bit(c, w));
                    assert(digit_solved_in(c, comp, sets[j]));
                }
            }
        }
    }
    lemma_bit_ext(c2, c1);
}

impl Board {
    /// Marks every cell whose candidate count has shrunk to one as complete.
    /// The completed mask only ever grows.
    pub fn update_cell_complete(&mut self)
        requires
            old(self).wf(),
        ensures
            final(self).wf(),
            final(self).candidates == old(self).candidates,
            final(self).same_rules(*old(self)),
            forall|i: int|
                0 <= i < 81 ==> #[trigger] final(self).complete(i) == (old(self).complete(i) || old(
                    self,
                ).cell_count(i) == 1),
            forall|i: int| 0 <= i < 81 && old(self).complete(i) ==> final(self).complete(i),
            forall|a: Seq<int>| #[trigger]
                completion_ok(*final(self), a) <==> completion_ok(*old(self), a),
    {
        let mut index: u8 = 0;
        while index < 81
            invariant
                index <= 81,
                self.wf(),
                self.candidates == old(self).candidates,
                self.rules == old(self).rules,
                self.rubiks_sets == old(self).rubiks_sets,
                forall|i: int|
                    0 <= i < index ==> #[trigger] self.complete(i) == (old(self).complete(i) || old(
                        self,
                    ).cell_count(i) == 1),
                forall|i: int| index <= i < 81 ==> #[trigger] self.complete(i) == old(
                    self,
                ).complete(i),
            decreases 81 - index,
        {
            let ghost pre = *self;
            let was = self.is_complete(index);
            let pop = self.count_candidates(index);
            if !was && pop == 1 {
                self.cell_complete = self.cell_complete | (1u128 << (index as u128));
            }
            proof {
                assert(self.candidates == pre.candidates);
                assert forall|d: int, i: int| 0 <= d < 9 && 0 <= i < 81 implies #[trigger] pre.cand(
                    d,
                    i,
                ) == old(self).cand(d, i) by {
                    assert(pre.candidates[d] == old(self).candidates[d]);
                }
                assert forall|i: int| 0 <= i < 81 implies pre.cell_count(i) == old(
                    self,
                ).cell_count(i) by {
                    lemma_count_digits_agree(pre, *old(self), i, 9);
                }
                assert forall|i: u128| 81 <= i < 128 implies !get_bit(self.cell_complete, i) by {
                    assert(!get_bit(pre.cell_complete, i));
                }
                assert forall|i: int| 0 <= i < 81 implies self.complete(i) == (pre.complete(i) || (i
                    == index as int && pop == 1)) by {
                    if !was && pop == 1 {
                        assert(self.cell_complete == pre.cell_complete | (1u128 << (
                        index as u128)));
                    } else {
                        if i == index as int && pop == 1 {
                            assert(pre.complete(i));
                        }
                    }
                }
                assert forall|i: int| 0 <= i < 81 && #[trigger] self.complete(i) implies
                    self.cell_count(i) == 1 by {
                    lemma_count_digits_agree(*self, pre, i, 9);
                    if !pre.complete(i) {
                        assert(i == index as int && pop == 1);
                    }
                }
                assert forall|d: int| 0 <= d < 9 implies wf81(#[trigger] self.candidates[d]) by {
                    assert(self.candidates[d] == pre.candidates[d]);
                    assert(wf81(pre.candidates[d]));
                }
                assert(self.groups() == pre.groups());
                assert forall|k: int| 0 <= k < self.groups().len() implies wf81(
                    #[trigger] self.groups()[k],
                ) by {
                    assert(wf81(pre.groups()[k]));
                }
                assert forall|i: int| index as int + 1 <= i < 81 implies #[trigger] self.complete(i)
                    == old(self).complete(i) by {
                    assert(self.complete(i) == pre.complete(i));
                    assert(pre.complete(i) == old(self).complete(i));
                }
                assert forall|i: int| 0 <= i < index as int + 1 implies #[trigger] self.complete(i)
                    == (old(self).complete(i) || old(self).cell_count(i) == 1) by {
                    if i < index as int {
                        assert(pre.complete(i) == (old(self).complete(i) || old(self).cell_count(i)
                            == 1));
                    } else {
                        assert(pop == pre.cell_count(i) && pre.cell_count(i) == old(
                            self,
                        ).cell_count(i));
                        if old(self).complete(i) {
                            assert(pre.complete(i));
                        }
                    }
                }
            }
            index = index + 1;
        }
        proof {
            assert forall|a: Seq<int>| #[trigger]
                completion_ok(*self, a) <==> completion_ok(*old(self), a) by {
                if completion_ok(*self, a) {
                    lemma_completion_same_state(*self, *old(self), a);
                }
                if completion_ok(*old(self), a) {
                    lemma_completion_same_state(*old(self), *self, a);
                }
            }
        }
    }

    /// One elimination sweep: for every group and digit, a completed copy of
    /// the digit inside the group clears the digit's candidacy from the rest
    /// of the group.
    pub fn update_candidates(&mut self)
        requires
            old(self).wf(),
        ensures
            final(self).wf(),
            final(self).cell_complete == old(self).cell_complete,
            final(self).same_rules(*old(self)),
            forall|d: int|
                0 <= d < 9 ==> #[trigger] final(self).candidates[d] == elim_upto(
                    old(self).candidates[d],
                    old(self).cell_complete,
                    old(self).groups(),
                    old(self).groups().len() as int,
                ),
            forall|d: int, i: int|
                0 <= d < 9 && 0 <= i < 81 && #[trigger] final(self).cand(d, i) ==> old(self).cand(
                    d,
                    i,
                ),
            forall|d: int, i: int|
                0 <= d < 9 && 0 <= i < 81 && old(self).complete(i) && old(self).cand(d, i)
                    ==> #[trigger] final(self).cand(d, i),
            forall|a: Seq<int>| #[trigger]
                completion_ok(*final(self), a) <==> completion_ok(*old(self), a),
    {
        let ghost comp = old(self).cell_complete;
        let ghost sets = old(self).groups();
        let mut k: usize = 0;
        let n = self.rules.sets.len();
        while k < n
            invariant
                k <= n,
                n == sets.len(),
                self.cell_complete == old(self).cell_complete,
                self.rules == old(self).rules,
                self.rubiks_sets == old(self).rubiks_sets,
                old(self).wf(),
                sets == old(self).groups(),
                comp == old(self).cell_complete,
                forall|d: int| 0 <= d < 9 ==> wf81(#[trigger] self.candidates[d]),
                forall|d: int|
                    0 <= d < 9 ==> #[trigger] self.candidates[d] == elim_upto(
                        old(self).candidates[d],
                        comp,
                        sets,
                        k as int,
                    ),
            decreases n - k,
        {
            let set = self.rules.sets[k];
            let complete_cells = set & self.cell_complete;
            let mut d: usize = 0;
            while d < 9
                invariant
                    d <= 9,
                    k < n,
                    n == sets.len(),
                    self.cell_complete == old(self).cell_complete,
                    self.rules == old(self).rules,
                    self.rubiks_sets == old(self).rubiks_sets,
                    old(self).wf(),
                    sets == old(self).groups(),
                    comp == old(self).cell_complete,
                    set == sets[k as int],
                    complete_cells == set & comp,
                    forall|e: int| 0 <= e < 9 ==> wf81(#[trigger] self.candidates[e]),
                    forall|e: int|
                        0 <= e < d ==> #[trigger] self.candidates[e] == elim_upto(
                            old(self).candidates[e],
                            comp,
                            sets,
                            k as int + 1,
                        ),
                    forall|e: int|
                        d <= e < 9 ==> #[trigger] self.candidates[e] == elim_upto(
                            old(self).candidates[e],
                            comp,
                            sets,
                            k as int,
                        ),
                decreases 9 - d,
            {
                let m = self.candidates[d];
                let cells_containing = complete_cells & m;
                if cells_containing != 0 {
                    self.candidates[d] = m & !(set & !cells_containing);
                }
                proof {
                    let dd = d as int;
                    assert(self.candidates[dd] == elim_step(m, comp, set));
                    assert(elim_upto(old(self).candidates[dd], comp, sets, k as int + 1)
                        == elim_step(m, comp, set));
                    assert forall|i: u128| 81 <= i < 128 implies !get_bit(
                        self.candidates[dd],
                        i,
                    ) by {
                        assert(!get_bit(m, i));
                    }
                }
                d = d + 1;
            }
            k = k + 1;
        }
        proof {
            let fin = *self;
            lemma_elim_wf(*old(self), fin);
            assert forall|a: Seq<int>| #[trigger]
                completion_ok(fin, a) <==> completion_ok(*old(self), a) by {
                if completion_ok(*old(self), a) {
                    lemma_elim_preserves_completions(*old(self), fin, a);
                }
                if completion_ok(fin, a) {
                    lemma_subset_reflects_completions(fin, *old(self), a);
                }
            }
        }
    }
}

/// After a full elimination sweep the board is still well formed, candidates
/// only shrank, and completed cells kept their digit.
proof fn lemma_elim_wf(pre: Board, fin: Board)
    requires
        pre.wf(),
        fin.cell_complete == pre.cell_complete,
        fin.rules.sets@ == pre.rules.sets@,
        forall|d: int|
            0 <= d < 9 ==> #[trigger] fin.candidates[d] == elim_upto(
                pre.candidates[d],
                pre.cell_complete,
                pre.groups(),
                pre.groups().len() as int,
            ),
    ensures
        fin.wf(),
        forall|d: int, i: int|
            0 <= d < 9 && 0 <= i < 81 && #[trigger] fin.cand(d, i) ==> pre.cand(d, i),
        forall|d: int, i: int|
            0 <= d < 9 && 0 <= i < 81 && pre.complete(i) && pre.cand(d, i) ==> #[trigger] fin.cand(
                d,
                i,
            ),
{
    let comp = pre.cell_complete;
    let sets = pre.groups();
    let n = sets.len() as int;
    assert forall|d: int| 0 <= d < 9 implies wf81(#[trigger] fin.candidates[d]) by {
        lemma_elim_upto_subset(pre.candidates[d], comp, sets, n);
        assert forall|i: u128| 81 <= i < 128 implies !get_bit(fin.candidates[d], i) by {
            assert(!get_bit(pre.candidates[d], i));
        }
    }
    assert forall|d: int, i: int|
        0 <= d < 9 && 0 <= i < 81 && #[trigger] fin.cand(d, i) implies pre.cand(d, i) by {
        lemma_elim_upto_subset(pre.candidates[d], comp, sets, n);
    }
    assert forall|d: int, i: int|
        0 <= d < 9 && 0 <= i < 81 && pre.complete(i) && pre.cand(d, i) implies #[trigger] fin.cand(
        d,
        i,
    ) by {
        lemma_elim_upto_protects(pre.candidates[d], comp, sets, n);
    }
    assert(fin.groups() == pre.groups());
    assert forall|k: int| 0 <= k < fin.groups().len() implies wf81(#[trigger] fin.groups()[k]) by {
        assert(wf81(pre.groups()[k]));
    }
    assert forall|i: int| 0 <= i < 81 && #[trigger] fin.complete(i) implies fin.cell_count(i)
        == 1 by {
        assert(pre.complete(i));
        assert(pre.cell_count(i) == 1);
        assert forall|d: int| 0 <= d < 9 implies #[trigger] fin.cand(d, i) == pre.cand(d, i) by {
            if pre.cand(d, i) {
                lemma_elim_upto_protects(pre.candidates[d], comp, sets, n);
            } else {
                lemma_elim_upto_subset(pre.candidates[d], comp, sets, n);
            }
        }
        lemma_count_digits_agree(fin, pre, i, 9);
    }
}

} // verus!
