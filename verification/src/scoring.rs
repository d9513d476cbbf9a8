//! Picking the lowest score, with rotation among ties.
use crate::binary64::Binary64;
use crate::number::{at_most, difference, less, one, rounded, Number};
use vstd::prelude::*;

verus! {

/// Scores no further above the lowest than this are ties, so that rounding noise
/// does not hand one worker a permanent advantage.
pub open spec fn tolerance() -> Number {
    rounded(false, 1 * one(), 1_000_000_000)
}

/// The lowest finite score; infinite where no score is finite.
pub open spec fn lowest(scores: Seq<Number>) -> Number
    decreases scores.len(),
{
    if scores.len() == 0 {
        Number::Infinite { negative: false }
    } else {
        let before = lowest(scores.drop_last());
        if scores.last() is Finite && less(scores.last(), before) {
            scores.last()
        } else {
            before
        }
    }
}

/// Whether the score at `i` ties for the lowest.
pub open spec fn ties(scores: Seq<Number>, i: int) -> bool {
    &&& 0 <= i < scores.len()
    &&& scores[i] is Finite
    &&& at_most(difference(scores[i], lowest(scores)), tolerance())
}

/// The first `n` positions, without those that do not tie for the lowest score.
pub open spec fn ties_before(scores: Seq<Number>, n: int) -> Seq<usize>
    decreases n,
{
    if n <= 0 {
        Seq::empty()
    } else if ties(scores, n - 1) {
        ties_before(scores, n - 1).push((n - 1) as usize)
    } else {
        ties_before(scores, n - 1)
    }
}

/// The positions that tie for the lowest score, in ascending order.
pub open spec fn tied(scores: Seq<Number>) -> Seq<usize> {
    ties_before(scores, scores.len() as int)
}

/// The position that wins: the only one that ties for the lowest score, or the
/// one whose turn it is. Where no score is finite, the first position.
pub open spec fn winner(scores: Seq<Number>, turn: usize) -> usize {
    let tied = tied(scores);
    if tied.len() == 0 {
        0
    } else if tied.len() == 1 {
        tied[0]
    } else {
        tied[turn as int % tied.len() as int]
    }
}

/// The turn after a decision: it moves on where there was a tie to break.
pub open spec fn next_turn(scores: Seq<Number>, turn: usize) -> usize {
    if tied(scores).len() >= 2 {
        if turn == usize::MAX {
            0
        } else {
            (turn + 1) as usize
        }
    } else {
        turn
    }
}

/// The numbers that a list of scores stands for.
pub open spec fn numbers(scores: Seq<Binary64>) -> Seq<Number> {
    Seq::new(scores.len(), |i: int| scores[i]@)
}

/// No finite score lies below the lowest one, which is one of the scores.
pub proof fn lemma_lowest(scores: Seq<Number>)
    ensures
        forall|i: int|
            0 <= i < scores.len() && (#[trigger] scores[i]) is Finite ==> at_most(
                lowest(scores),
                scores[i],
            ),
        lowest(scores) is Finite ==> exists|i: int|
            0 <= i < scores.len() && #[trigger] scores[i] == lowest(scores),
        lowest(scores) !is Finite ==> lowest(scores) == (Number::Infinite { negative: false }),
        (exists|i: int| 0 <= i < scores.len() && (#[trigger] scores[i]) is Finite)
            <==> lowest(scores) is Finite,
    decreases scores.len(),
{
    if scores.len() > 0 {
        let front = scores.drop_last();
        lemma_lowest(front);
        assert forall|i: int| 0 <= i < scores.len() && (#[trigger] scores[i]) is Finite implies
            at_most(lowest(scores), scores[i]) by {
            if i < front.len() {
                assert(front[i] == scores[i]);
            }
        }
        if lowest(scores) is Finite {
            if lowest(front) is Finite {
                let i = choose|i: int| 0 <= i < front.len() && #[trigger] front[i] == lowest(front);
                assert(scores[i] == lowest(front));
            }
            assert(scores[scores.len() - 1] == scores.last());
        }
    }
}

/// The listed positions are exactly those that tie, in ascending order.
pub proof fn lemma_ties_before(scores: Seq<Number>, n: int)
    requires
        0 <= n <= scores.len() <= usize::MAX,
    ensures
        forall|k: int|
            0 <= k < ties_before(scores, n).len() ==> {
                let i = #[trigger] ties_before(scores, n)[k];
                i < n && ties(scores, i as int)
            },
        forall|i: int|
            0 <= i < n && #[trigger] ties(scores, i) ==> ties_before(scores, n).contains(
                i as usize,
            ),
        forall|j: int, k: int|
            0 <= j < k < ties_before(scores, n).len() ==> #[trigger] ties_before(scores, n)[j]
                < #[trigger] ties_before(scores, n)[k],
    decreases n,
{
    if n > 0 {
        lemma_ties_before(scores, n - 1);
        let before = ties_before(scores, n - 1);
        let after = ties_before(scores, n);
        assert forall|i: int| 0 <= i < n && #[trigger] ties(scores, i) implies after.contains(
            i as usize,
        ) by {
            if i < n - 1 {
                let k = choose|k: int| 0 <= k < before.len() && before[k] == i as usize;
                assert(after[k] == i as usize);
            } else {
                assert(after[after.len() - 1] == i as usize);
            }
        }
    }
}

/// The tied positions are exactly those that tie, in ascending order.
pub proof fn lemma_tied(scores: Seq<Number>)
    requires
        scores.len() <= usize::MAX,
    ensures
        forall|k: int|
            0 <= k < tied(scores).len() ==> ties(scores, #[trigger] tied(scores)[k] as int),
        forall|i: int| #[trigger] ties(scores, i) ==> tied(scores).contains(i as usize),
        forall|j: int, k: int|
            0 <= j < k < tied(scores).len() ==> #[trigger] tied(scores)[j]
                < #[trigger] tied(scores)[k],
{
    lemma_ties_before(scores, scores.len() as int);
}

/// The lowest finite score.
fn lowest_score(scores: &Vec<Binary64>) -> (r: Binary64)
    ensures
        r@ == lowest(numbers(scores@)),
{
    let mut best: Binary64 = Binary64::infinite(false);
    let mut i: usize = 0;
    proof {
        assert(numbers(scores@).take(0) =~= Seq::<Number>::empty());
    }
    while i < scores.len()
        invariant
            i <= scores@.len(),
            best@ == lowest(numbers(scores@).take(i as int)),
        decreases scores@.len() - i,
    {
        proof {
            let seen = numbers(scores@).take(i + 1);
            assert(seen.drop_last() =~= numbers(scores@).take(i as int));
            assert(seen.last() == scores@[i as int]@);
        }
        if scores[i].is_finite() && scores[i].is_less_than(best) {
            best = scores[i];
        }
        i = i + 1;
    }
    proof {
        assert(numbers(scores@).take(i as int) =~= numbers(scores@));
    }
    best
}

/// The positions that tie for the lowest score, in ascending order.
pub fn tied_positions(scores: &Vec<Binary64>) -> (r: Vec<usize>)
    ensures
        r@ == tied(numbers(scores@)),
        forall|k: int|
            0 <= k < r@.len() ==> ties(numbers(scores@), #[trigger] r@[k] as int),
        forall|i: int| #[trigger]
            ties(numbers(scores@), i) ==> r@.contains(i as usize),
        forall|j: int, k: int| 0 <= j < k < r@.len() ==> #[trigger] r@[j] < #[trigger] r@[k],
{
    let best: Binary64 = lowest_score(scores);
    let near: Binary64 = Binary64::ratio(1, 1_000_000_000);
    let mut positions: Vec<usize> = Vec::new();
    let mut i: usize = 0;
    let count: usize = scores.len();
    while i < count
        invariant
            i <= count == scores@.len(),
            best@ == lowest(numbers(scores@)),
            near@ == tolerance(),
            positions@ == ties_before(numbers(scores@), i as int),
        decreases count - i,
    {
        assert(numbers(scores@)[i as int] == scores@[i as int]@);
        if scores[i].is_finite() && scores[i].minus(best).is_at_most(near) {
            positions.push(i);
        }
        i = i + 1;
    }
    proof {
        assert(numbers(scores@).len() == count);
        lemma_tied(numbers(scores@));
    }
    positions
}

/// The position with the lowest score, rotating among ties, and the next turn.
pub fn pick(scores: &Vec<Binary64>, turn: usize) -> (r: (usize, usize))
    requires
        scores@.len() > 0,
    ensures
        r.0 == winner(numbers(scores@), turn),
        r.0 < scores@.len(),
        r.1 == next_turn(numbers(scores@), turn),
{
    let tied: Vec<usize> = tied_positions(scores);
    if tied.len() == 0 {
        (0, turn)
    } else if tied.len() == 1 {
        assert(ties(numbers(scores@), tied@[0] as int));
        (tied[0], turn)
    } else {
        let next: usize = if turn == usize::MAX {
            0
        } else {
            turn + 1
        };
        let at: usize = turn % tied.len();
        assert(ties(numbers(scores@), tied@[at as int] as int));
        (tied[at], next)
    }
}

} // verus!
