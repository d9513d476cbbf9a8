//! How near a score has to come to the others to count as a tie.
use crate::laws::{lemma_gap, lemma_tolerance};
use crate::number::{at_most, difference, one, Number};
use crate::rounding::{lemma_nearest_error, nearest};
use crate::scoring::{lemma_lowest, lowest, ties, tolerance};
use vstd::arithmetic::power2::{
    lemma2_to64, lemma2_to64_rest, lemma_pow2_adds, lemma_pow2_pos, lemma_pow2_strictly_increases,
};
use vstd::prelude::*;

verus! {

/// The tolerance is a billionth, up to rounding.
proof fn lemma_tolerance_is_a_billionth()
    ensures
        ({
            let near = tolerance()->quanta as int;
            let whole = one() as int;
            &&& 0x4000_0000_0000 * (1_000_000_000 * near) <= 0x4000_0000_0000 * whole + whole / 2
            &&& 0x4000_0000_0000 * whole - whole / 2 <= 0x4000_0000_0000 * (1_000_000_000 * near)
        }),
{
    lemma_tolerance();
    lemma2_to64();
    lemma2_to64_rest();
    lemma_nearest_error(1 * one(), 1_000_000_000);
    lemma_large();
}

/// One is many quanta.
proof fn lemma_large()
    ensures
        0x1_0000_0000_0000_0000 * 0x1_0000_0000_0000_0000 <= one(),
{
    lemma2_to64();
    lemma2_to64_rest();
    lemma_pow2_adds(64, 64);
    lemma_pow2_strictly_increases(128, 1074);
}

/// A gap that is within the tolerance when rounded is a billionth at most.
proof fn lemma_rounded_gap(a: Number, b: Number)
    requires
        a is Finite,
        b is Finite,
        at_most(difference(a, b), tolerance()),
    ensures
        0x4000_0000_0000 * (1_000_000_000 * (a.signed() - b.signed())) <= 0x4000_0000_0001 * one(),
{
    let gap = a.signed() - b.signed();
    lemma_tolerance();
    lemma_tolerance_is_a_billionth();
    lemma_large();
    lemma2_to64();
    lemma2_to64_rest();
    lemma_pow2_pos(1074);
    if gap > 0 {
        lemma_gap(a, b);
        lemma_nearest_error(gap as nat, 1);
        assert(nearest(gap as nat, 1, 53, 0) <= tolerance()->quanta);
    }
}

/// A tie is a score that lies above no finite score by more than a billionth: one
/// that ties lies above none by more, and one that lies above none by that much
/// ties. Both hold up to one part in `2^46`.
pub proof fn law_ties_are_within_a_billionth(scores: Seq<Number>, i: int)
    requires
        0 <= i < scores.len(),
        scores[i] is Finite,
    ensures
        ties(scores, i) ==> forall|j: int|
            0 <= j < scores.len() && (#[trigger] scores[j]) is Finite ==> 0x4000_0000_0000 * (
            1_000_000_000 * (scores[i].signed() - scores[j].signed())) <= 0x4000_0000_0001 * one(),
        (forall|j: int|
            0 <= j < scores.len() && (#[trigger] scores[j]) is Finite ==> 0x4000_0000_0000 * (
            1_000_000_000 * (scores[i].signed() - scores[j].signed())) <= 0x3FFF_FFFF_FFFF * one())
            ==> ties(scores, i),
{
    lemma_lowest(scores);
    let least = lowest(scores);
    assert(least is Finite);
    lemma_tolerance();
    lemma_tolerance_is_a_billionth();
    lemma_gap(scores[i], least);
    if ties(scores, i) {
        lemma_rounded_gap(scores[i], least);
    }
    if forall|j: int|
        0 <= j < scores.len() && (#[trigger] scores[j]) is Finite ==> 0x4000_0000_0000 * (
        1_000_000_000 * (scores[i].signed() - scores[j].signed())) <= 0x3FFF_FFFF_FFFF * one() {
        let k = choose|k: int| 0 <= k < scores.len() && #[trigger] scores[k] == least;
        assert(scores[k] is Finite);
        lemma_pow2_pos(1074);
        assert(scores[i].signed() - least.signed() <= tolerance().signed());
    }
}

} // verus!
