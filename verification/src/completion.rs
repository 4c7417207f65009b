//! The completion semantics: what it means for a digit assignment to solve a
//! board, and how the engine's steps preserve exactly that set of solutions.
//!
//! A completion assigns one still-candidate digit to every cell, repeats no
//! digit inside a group, and lands every digit in every group.  Elimination,
//! the singles rule and branching neither create nor lose completions, which
//! grounds the solver's result codes: 0 is proved to mean "no completion",
//! and 1 comes with the final board as a genuine completion.

use vstd::prelude::*;

use crate::bits::count_bits;
use crate::bits::get_bit;
use crate::bits::group_bit_lemmas;
use crate::bits::lemma_count_bits_one;
use crate::bits::lemma_count_bits_two;
use crate::bits::lemma_count_bits_zero;
use crate::engine::digit_solved_in;
use crate::engine::elim_hit;
use crate::engine::elim_upto;
use crate::engine::lemma_elim_upto_bits;
use crate::solver::lemma_count_digits_one;
use crate::solver::lemma_count_digits_zero;
use crate::solver::Board;

verus! {

broadcast use group_bit_lemmas;

/// Cell `i` belongs to group `k` of board `b`.
pub open spec fn in_group(b: Board, k: int, i: int) -> bool {
    0 <= i < 81 && get_bit(b.groups()[k], i as u128)
}

/// Group `k` of board `b` receives digit `d` somewhere under assignment `a`.
pub open spec fn group_covers(b: Board, a: Seq<int>, k: int, d: int) -> bool {
    exists|i: int| #![trigger in_group(b, k, i)] in_group(b, k, i) && a[i] == d
}

/// `a` solves board `b`: each cell gets one of its remaining candidates, no
/// group repeats a digit, and every group receives every digit.
pub open spec fn completion_ok(b: Board, a: Seq<int>) -> bool {
    &&& a.len() == 81
    &&& forall|i: int| 0 <= i < 81 ==> b.cand(#[trigger] a[i], i)
    &&& forall|k: int, i: int, j: int|
        #![trigger in_group(b, k, i), in_group(b, k, j)]
        0 <= k < b.groups().len() && i != j && in_group(b, k, i) && in_group(b, k, j) ==> a[i]
            != a[j]
    &&& forall|k: int, d: int|
        0 <= k < b.groups().len() && 0 <= d < 9 ==> #[trigger] group_covers(b, a, k, d)
}

/// Completions only look at the candidates and the groups: boards that agree
/// there have the same completions.
pub proof fn lemma_completion_same_state(b1: Board, b2: Board, a: Seq<int>)
    requires
        b1.candidates == b2.candidates,
        b1.rules.sets@ == b2.rules.sets@,
        completion_ok(b1, a),
    ensures
        completion_ok(b2, a),
{
    assert forall|i: int| 0 <= i < 81 implies b2.cand(#[trigger] a[i], i) by {
        assert(b1.cand(a[i], i));
        assert(b1.candidates[a[i]] == b2.candidates[a[i]]);
    }
    assert(b1.groups() == b2.groups());
    assert forall|k: int, i: int|
        0 <= k < b2.groups().len() && #[trigger] in_group(b2, k, i) implies in_group(b1, k, i) by {}
    assert forall|k: int, d: int|
        0 <= k < b2.groups().len() && 0 <= d < 9 implies #[trigger] group_covers(b2, a, k, d) by {
        assert(group_covers(b1, a, k, d));
        let i = choose|i: int| #![trigger in_group(b1, k, i)] in_group(b1, k, i) && a[i] == d;
        assert(in_group(b2, k, i) && a[i] == d);
    }
}

/// A board that still has a completion shows no contradiction.
pub proof fn lemma_completion_legal(b: Board, a: Seq<int>)
    requires
        b.wf(),
        completion_ok(b, a),
    ensures
        b.spec_legal(),
{
    assert forall|k: int, d: int|
        0 <= k < b.groups().len() && 0 <= d < 9 implies count_bits(
        #[trigger] (b.candidates[d] & b.groups()[k]),
        81,
    ) > 0 by {
        assert(group_covers(b, a, k, d));
        let i = choose|i: int| #![trigger in_group(b, k, i)] in_group(b, k, i) && a[i] == d;
        assert(b.cand(d, i));
        assert(get_bit(b.candidates[d] & b.groups()[k], i as u128));
        lemma_count_bits_zero(b.candidates[d] & b.groups()[k], 81);
        crate::bits::lemma_count_bits_bounds(b.candidates[d] & b.groups()[k], 81);
    }
    assert forall|k: int, d: int|
        0 <= k < b.groups().len() && 0 <= d < 9 implies count_bits(
        #[trigger] (b.cell_complete & (b.candidates[d] & b.groups()[k])),
        81,
    ) <= 1 by {
        let y = b.cell_complete & (b.candidates[d] & b.groups()[k]);
        if count_bits(y, 81) >= 2 {
            lemma_count_bits_two(y, 81);
            let (w1, w2) = choose|w1: u128, w2: u128|
                #![trigger get_bit(y, w1), get_bit(y, w2)]
                w1 < w2 && w2 < 81 && get_bit(y, w1) && get_bit(y, w2);
            lemma_sole_candidate_forced(b, a, w1 as int, d);
            lemma_sole_candidate_forced(b, a, w2 as int, d);
            assert(in_group(b, k, w1 as int) && in_group(b, k, w2 as int));
            assert(a[w1 as int] != a[w2 as int]);
        }
    }
    assert forall|i: int| 0 <= i < 81 implies b.cell_count(i) > 0 by {
        assert(b.cand(a[i], i));
        lemma_count_digits_zero(b, i, 9);
        crate::solver::lemma_count_digits_bounds(b, i, 9);
    }
}

/// A completed cell that still holds digit `d` was assigned `d`: its single
/// candidate is the only digit a completion can give it.
proof fn lemma_sole_candidate_forced(b: Board, a: Seq<int>, w: int, d: int)
    requires
        b.wf(),
        completion_ok(b, a),
        0 <= w < 81,
        b.complete(w),
        b.cand(d, w),
    ensures
        a[w] == d,
{
    assert(b.cell_count(w) == 1);
    lemma_count_digits_one(b, w, 9);
    assert(b.cand(a[w], w));
}

/// One elimination sweep keeps every completion: an eliminated candidate
/// can never be used by a completion, because the completed cell that drove
/// the elimination already owns that digit in the group.
pub proof fn lemma_elim_preserves_completions(pre: Board, fin: Board, a: Seq<int>)
    requires
        pre.wf(),
        fin.rules.sets@ == pre.rules.sets@,
        forall|d: int|
            0 <= d < 9 ==> #[trigger] fin.candidates[d] == elim_upto(
                pre.candidates[d],
                pre.cell_complete,
                pre.groups(),
                pre.groups().len() as int,
            ),
        completion_ok(pre, a),
    ensures
        completion_ok(fin, a),
{
    let comp = pre.cell_complete;
    let sets = pre.groups();
    let n = sets.len() as int;
    assert forall|i: int| 0 <= i < 81 implies fin.cand(#[trigger] a[i], i) by {
        let d = a[i];
        assert(pre.cand(d, i));
        lemma_elim_upto_bits(pre.candidates[d], comp, sets, n);
        if exists|j: int| 0 <= j < n && elim_hit(pre.candidates[d], comp, #[trigger] sets[j], i as u128) {
            let j = choose|j: int|
                0 <= j < n && elim_hit(pre.candidates[d], comp, #[trigger] sets[j], i as u128);
            assert(digit_solved_in(pre.candidates[d], comp, sets[j]));
            let w = choose|w: u128|
                w < 128 && get_bit(sets[j], w) && get_bit(comp, w) && #[trigger] get_bit(
                    pre.candidates[d],
                    w,
                );
            assert(w < 81) by {
                assert(crate::bits::wf81(pre.candidates[d]));
            }
            assert(pre.complete(w as int) && pre.cand(d, w as int));
            lemma_sole_candidate_forced(pre, a, w as int, d);
            assert(!(get_bit(comp, i as u128) && get_bit(pre.candidates[d], i as u128)));
            assert(i != w as int);
            assert(in_group(pre, j, i) && in_group(pre, j, w as int));
            assert(a[i] != a[w as int]);
        }
    }
    assert(fin.groups() == pre.groups());
    assert forall|k: int, i: int|
        0 <= k < fin.groups().len() && #[trigger] in_group(fin, k, i) implies in_group(
        pre,
        k,
        i,
    ) by {}
    assert forall|k: int, d: int|
        0 <= k < fin.groups().len() && 0 <= d < 9 implies #[trigger] group_covers(fin, a, k, d) by {
        assert(group_covers(pre, a, k, d));
        let i = choose|i: int| #![trigger in_group(pre, k, i)] in_group(pre, k, i) && a[i] == d;
        assert(in_group(fin, k, i) && a[i] == d);
    }
}

/// Candidates only shrank, groups unchanged: a completion of the smaller
/// board is one of the larger.
pub proof fn lemma_subset_reflects_completions(fin: Board, pre: Board, a: Seq<int>)
    requires
        fin.rules.sets@ == pre.rules.sets@,
        forall|d: int, i: int|
            0 <= d < 9 && 0 <= i < 81 && #[trigger] fin.cand(d, i) ==> pre.cand(d, i),
        completion_ok(fin, a),
    ensures
        completion_ok(pre, a),
{
    assert forall|i: int| 0 <= i < 81 implies pre.cand(#[trigger] a[i], i) by {
        assert(fin.cand(a[i], i));
    }
    assert(fin.groups() == pre.groups());
    assert forall|k: int, i: int|
        0 <= k < pre.groups().len() && #[trigger] in_group(pre, k, i) implies in_group(
        fin,
        k,
        i,
    ) by {}
    assert forall|k: int, d: int|
        0 <= k < pre.groups().len() && 0 <= d < 9 implies #[trigger] group_covers(pre, a, k, d) by {
        assert(group_covers(fin, a, k, d));
        let i = choose|i: int| #![trigger in_group(fin, k, i)] in_group(fin, k, i) && a[i] == d;
        assert(in_group(pre, k, i) && a[i] == d);
    }
}

/// Forcing the branch cell splits the completions: a completion of the child
/// is exactly a completion of the parent that assigns the branch digit.
pub proof fn lemma_branch_partition(parent: Board, child: Board, digit: int, cell: int)
    requires
        0 <= digit < 9,
        0 <= cell < 81,
        child.rules.sets@ == parent.rules.sets@,
        forall|d: int, i: int|
            0 <= d < 9 && 0 <= i < 81 ==> #[trigger] child.cand(d, i) == (if i == cell {
                d == digit
            } else {
                parent.cand(d, i)
            }),
        parent.cand(digit, cell),
    ensures
        forall|a2: Seq<int>| #[trigger]
            completion_ok(child, a2) <==> (completion_ok(parent, a2) && a2.len() == 81
                && a2[cell] == digit),
{
    assert forall|a2: Seq<int>| #[trigger]
        completion_ok(child, a2) <==> (completion_ok(parent, a2) && a2.len() == 81 && a2[cell]
            == digit) by {
        assert(child.groups() == parent.groups());
        if completion_ok(child, a2) {
            assert(child.cand(a2[cell], cell));
            assert(a2[cell] == digit);
            assert forall|i: int| 0 <= i < 81 implies parent.cand(#[trigger] a2[i], i) by {
                assert(child.cand(a2[i], i));
            }
            assert forall|k: int, i: int|
                0 <= k < parent.groups().len() && #[trigger] in_group(parent, k, i) implies
                in_group(child, k, i) by {}
            assert forall|k: int, d: int|
                0 <= k < parent.groups().len() && 0 <= d < 9 implies #[trigger] group_covers(
                parent,
                a2,
                k,
                d,
            ) by {
                assert(group_covers(child, a2, k, d));
                let i = choose|i: int| #![trigger in_group(child, k, i)]
                    in_group(child, k, i) && a2[i] == d;
                assert(in_group(parent, k, i) && a2[i] == d);
            }
            assert(completion_ok(parent, a2));
        }
        if completion_ok(parent, a2) && a2.len() == 81 && a2[cell] == digit {
            assert forall|i: int| 0 <= i < 81 implies child.cand(#[trigger] a2[i], i) by {
                assert(parent.cand(a2[i], i));
            }
            assert forall|k: int, i: int|
                0 <= k < child.groups().len() && #[trigger] in_group(child, k, i) implies in_group(
                parent,
                k,
                i,
            ) by {}
            assert forall|k: int, d: int|
                0 <= k < child.groups().len() && 0 <= d < 9 implies #[trigger] group_covers(
                child,
                a2,
                k,
                d,
            ) by {
                assert(group_covers(parent, a2, k, d));
                let i = choose|i: int| #![trigger in_group(parent, k, i)]
                    in_group(parent, k, i) && a2[i] == d;
                assert(in_group(child, k, i) && a2[i] == d);
            }
            assert(completion_ok(child, a2));
        }
    }
}

/// The board admits at least two different completions.
pub open spec fn two_completions(b: Board) -> bool {
    exists|a1: Seq<int>, a2: Seq<int>|
        #![trigger completion_ok(b, a1), completion_ok(b, a2)]
        completion_ok(b, a1) && completion_ok(b, a2) && a1 != a2
}

/// The digits of a fully determined board, cell by cell.
pub open spec fn assignment(b: Board) -> Seq<int> {
    Seq::new(81, |i: int| crate::loader::sole_digit(b, i))
}

/// A solved legal board is its own completion, and the only one it has.
pub proof fn lemma_solved_assignment(b: Board)
    requires
        b.wf(),
        b.spec_legal(),
        b.spec_solved(),
    ensures
        completion_ok(b, assignment(b)),
        forall|a: Seq<int>| #[trigger] completion_ok(b, a) ==> a =~= assignment(b),
{
    let asg = assignment(b);
    crate::checker::lemma_solved_legal_groups(b);
    assert forall|i: int| 0 <= i < 81 implies b.cand(#[trigger] asg[i], i) by {
        assert(b.complete(i));
        assert(b.cell_count(i) == 1);
        lemma_count_digits_one(b, i, 9);
        let w = choose|w: int|
            0 <= w < 9 && #[trigger] b.cand(w, i) && (forall|e: int|
                0 <= e < 9 && e != w ==> !(#[trigger] b.cand(e, i)));
        assert(crate::loader::sole_digit(b, i) == w);
    }
    assert forall|k: int, i: int, j: int|
        #![trigger in_group(b, k, i), in_group(b, k, j)]
        0 <= k < b.groups().len() && i != j && in_group(b, k, i) && in_group(b, k, j) implies
        asg[i] != asg[j] by {
        if asg[i] == asg[j] {
            let d = asg[i];
            assert(b.cand(d, i) && b.cand(d, j));
            let y = b.candidates[d] & b.groups()[k];
            assert(get_bit(y, i as u128) && get_bit(y, j as u128));
            assert(count_bits(y, 81) == 1);
            lemma_count_bits_one(y, 81);
        }
    }
    assert forall|k: int, d: int|
        0 <= k < b.groups().len() && 0 <= d < 9 implies #[trigger] group_covers(b, asg, k, d) by {
        let y = b.candidates[d] & b.groups()[k];
        assert(count_bits(y, 81) == 1);
        lemma_count_bits_one(y, 81);
        let w = choose|w: u128|
            w < 81 && get_bit(y, w) && (forall|q: u128| q < 81 && q != w ==> !get_bit(y, q));
        assert(b.cand(d, w as int));
        assert(b.complete(w as int));
        assert(b.cell_count(w as int) == 1);
        lemma_count_digits_one(b, w as int, 9);
        assert(asg[w as int] == d);
        assert(in_group(b, k, w as int));
    }
    assert forall|a: Seq<int>| #[trigger] completion_ok(b, a) implies a =~= asg by {
        assert forall|i: int| 0 <= i < a.len() implies a[i] == asg[i] by {
            assert(b.cand(a[i], i));
            assert(b.complete(i));
            assert(b.cell_count(i) == 1);
            lemma_count_digits_one(b, i, 9);
            assert(b.cand(asg[i], i));
        }
    }
}

} // verus!
