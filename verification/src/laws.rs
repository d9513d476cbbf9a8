//! What holds of the library as a whole.
use crate::chunk_aware::{
    backlog_tokens, chunk_size, chunks_of_tokens, highest_backlog, lowest_backlog, reservation_of,
    running_requests, tokens_of_chars, uncached_tokens, CandidateModel, PolicyModel,
};
use crate::json::JsonTree;
use crate::loads::{load_entries, total_of};
use crate::number::{
    at_most, difference, finite_sum, greater, lemma_integer_is_exact, lemma_one_is_exact, negated,
    of_integer, one, positive, product, quotient, sum, Number,
};
use crate::order::{
    is_double, lemma_integer_is_double, lemma_integer_is_finite, lemma_integers_ordered,
    lemma_pattern_is_double, lemma_products_ordered, lemma_quotient_by_half,
    lemma_quotient_is_finite, lemma_quotients_ordered, lemma_results_are_doubles,
    lemma_rounded_is_double, lemma_rounded_within, lemma_rounding_is_idempotent,
    lemma_self_quotient, lemma_times_one, lemma_times_two, lemma_total_is_exact,
    lemma_totals_ordered, lemma_zero_is_double, lemma_zero_rounds, representable,
};
use crate::policy::{ChunkAwareConfig, PrefillLoadReport, SelectWorkerInfo};
use crate::prefill::PrefillModel;
use crate::rates::is_rate;
use crate::rounding::{lemma_nearest_ordered, lemma_nearest_scales, lemma_pow2_monotone, nearest};
use crate::scoring::{lemma_lowest, lemma_tied, lowest, next_turn, tied, ties, tolerance, winner};
use crate::store::state_of;
use crate::worker::{
    healthy_indices, lemma_healthy_indices, model_key, pool_name, reservation_after, tree_key,
    Worker,
};
use crate::worker_manager::{failures, successes, WorkerReply};
use vstd::arithmetic::div_mod::{
    lemma_add_mod_noop, lemma_basic_div, lemma_div_is_ordered, lemma_fundamental_div_mod,
    lemma_mod_bound, lemma_mod_self_0, lemma_mod_twice, lemma_small_mod,
};
use vstd::arithmetic::power2::{
    lemma2_to64, lemma2_to64_rest, lemma_pow2_adds, lemma_pow2_pos, lemma_pow2_strictly_increases,
    lemma_pow2_unfold, pow2,
};
use vstd::prelude::*;

verus! {

/// A worker is selected exactly where one is available, and the selected one is.
pub proof fn law_only_available_workers_are_selected(
    policy: PolicyModel,
    workers: Seq<Worker>,
    info: SelectWorkerInfo,
)
    requires
        workers.len() <= usize::MAX,
    ensures
        policy.selection(workers, info) is Some <==> exists|i: int|
            0 <= i < workers.len() && (#[trigger] workers[i]).available(),
        policy.selection(workers, info) matches Some(selection) ==> selection.index < workers.len()
            && workers[selection.index as int].available(),
{
    lemma_healthy_indices(workers);
    let indices = healthy_indices(workers);
    if indices.len() > 0 {
        assert(workers[indices[0] as int].available());
        let candidates = policy.candidates(workers, info);
        let scores = policy.scores(info, candidates);
        lemma_healthy_count(workers);
        lemma_winner_in_range(scores, policy.turn);
        let at = winner(scores, policy.turn) as int;
        assert(candidates[at].index == indices[at]);
        assert(workers[indices[at] as int].available());
    }
}

pub(crate) proof fn lemma_healthy_count(workers: Seq<Worker>)
    ensures
        healthy_indices(workers).len() <= workers.len(),
    decreases workers.len(),
{
    if workers.len() > 0 {
        lemma_healthy_count(workers.drop_last());
    }
}

pub(crate) proof fn lemma_winner_in_range(scores: Seq<Number>, turn: usize)
    requires
        0 < scores.len() <= usize::MAX,
    ensures
        winner(scores, turn) < scores.len(),
        tied(scores).len() > 0 ==> ties(scores, winner(scores, turn) as int),
{
    lemma_tied(scores);
    let tied = tied(scores);
    if tied.len() > 0 {
        assert(ties(scores, tied[0] as int));
        assert(ties(scores, tied[turn as int % tied.len() as int] as int));
    }
}

/// Whether `a` lies above `b` by no more than twice the tolerance, and so by no
/// more than `2e-9`.
pub open spec fn barely_above(a: Number, b: Number) -> bool {
    &&& a.signed() <= b.signed() + 2 * tolerance().signed()
    &&& 1_000_000_000 * (a.signed() - b.signed()) <= 2 * one()
}

/// The lowest score wins, up to the tolerance of a tie: the winner's score is
/// finite, and above no finite score by more than `2e-9`. Scores that are not
/// finite never win.
pub proof fn law_the_lowest_score_wins(scores: Seq<Number>, turn: usize)
    requires
        0 < scores.len() <= usize::MAX,
        exists|i: int| 0 <= i < scores.len() && (#[trigger] scores[i]) is Finite,
    ensures
        ({
            let won = scores[winner(scores, turn) as int];
            &&& winner(scores, turn) < scores.len()
            &&& won is Finite
            &&& forall|i: int|
                0 <= i < scores.len() && (#[trigger] scores[i]) is Finite ==> barely_above(
                    won,
                    scores[i],
                )
        }),
{
    lemma_lowest(scores);
    let best = lowest(scores);
    let least = choose|i: int| 0 <= i < scores.len() && #[trigger] scores[i] == best;
    lemma_tolerance();
    lemma_gap(best, best);
    lemma_tied(scores);
    assert(ties(scores, least));
    assert(tied(scores).contains(least as usize));
    lemma_winner_in_range(scores, turn);
    let won = scores[winner(scores, turn) as int];
    lemma_gap(won, best);
    assert forall|i: int| 0 <= i < scores.len() && (#[trigger] scores[i]) is Finite implies
        barely_above(won, scores[i]) by {
        assert(at_most(best, scores[i]));
    }
}

/// Where no score is finite the first position wins, and no turn is taken.
pub proof fn law_without_a_finite_score_the_first_wins(scores: Seq<Number>, turn: usize)
    requires
        scores.len() <= usize::MAX,
        forall|i: int| 0 <= i < scores.len() ==> (#[trigger] scores[i]) !is Finite,
    ensures
        winner(scores, turn) == 0,
        next_turn(scores, turn) == turn,
{
    lemma_tied(scores);
    if tied(scores).len() > 0 {
        assert(ties(scores, tied(scores)[0] as int));
    }
}

/// The tolerance is a number of the format between `2^-30` and `2^-29`.
pub(crate) proof fn lemma_tolerance()
    ensures
        tolerance() is Finite,
        tolerance().signed() == tolerance()->quanta,
        pow2(1044) <= tolerance()->quanta < pow2(1045),
        1_000_000_000 * pow2(1045) <= 2 * one(),
        pow2(1045) <= 2 * tolerance()->quanta,
        is_double(tolerance()),
{
    lemma2_to64();
    lemma2_to64_rest();
    lemma_pow2_adds(30, 1044);
    lemma_pow2_adds(30, 1043);
    lemma_pow2_unfold(1044);
    lemma_pow2_unfold(1045);
    lemma_pow2_pos(1043);
    let billion: nat = 1_000_000_000;
    lemma_rounded_is_double(false, 1 * one(), billion);
    lemma_rounded_within(false, 1 * one(), billion, 1044);
    lemma_rounded_within(false, 1 * one(), billion, 1045);
    let above = 3 * pow2(1043);
    assert(representable(above));
    lemma_rounding_is_idempotent(above, 1);
    assert((1 * one()) * 1 <= (1 * above) * billion);
    lemma_nearest_ordered(1 * one(), billion, 1 * above, 1, 53, 0);
}

/// A rounded gap within the tolerance is, before rounding, below `2^-29`; and a
/// gap within the tolerance stays so when rounded.
pub(crate) proof fn lemma_gap(a: Number, b: Number)
    requires
        a is Finite,
        b is Finite,
    ensures
        at_most(difference(a, b), tolerance()) ==> a.signed() - b.signed() < pow2(1045),
        at_most(difference(a, b), tolerance()) ==> barely_above(a, b),
        a.signed() - b.signed() <= tolerance().signed() ==> at_most(difference(a, b), tolerance()),
{
    lemma_tolerance();
    let gap = a.signed() - b.signed();
    let zero = a.is_negative() && negated(b).is_negative();
    assert(difference(a, b) == finite_sum(gap, zero));
    let power = pow2(1045);
    lemma2_to64();
    lemma2_to64_rest();
    assert(1 * pow2(1045) == power);
    lemma_pow2_strictly_increases(1045, 2098);
    lemma_total_is_exact(power as int, false);
    lemma_total_is_exact(tolerance().signed(), false);
    if gap >= power {
        lemma_totals_ordered(power as int, false, gap, zero);
    }
    if gap <= tolerance().signed() {
        lemma_totals_ordered(gap, zero, tolerance().signed(), false);
    }
}

/// Near-equal scores are ties, in whatever order they come: every finite score
/// that lies above the lowest by no more than the tolerance ties with it, so that
/// rounding noise hands no worker an advantage.
pub proof fn law_near_scores_tie(scores: Seq<Number>, i: int)
    requires
        0 <= i < scores.len() <= usize::MAX,
        scores[i] is Finite,
        scores[i].signed() <= lowest(scores).signed() + tolerance().signed(),
    ensures
        ties(scores, i),
        tied(scores).contains(i as usize),
{
    lemma_lowest(scores);
    lemma_tied(scores);
    lemma_gap(scores[i], lowest(scores));
    assert(ties(scores, i));
}

/// Requests that score all workers alike go to the same one.
proof fn lemma_same_scores(
    policy: PolicyModel,
    workers: Seq<Worker>,
    first: SelectWorkerInfo,
    second: SelectWorkerInfo,
)
    requires
        workers.len() <= usize::MAX,
        first.text() == second.text(),
        forall|c: CandidateModel, d: CandidateModel, spilling: bool|
            #![trigger policy.score(first, c, spilling), policy.score(second, d, spilling)]
            c.index == d.index && c.backlog == d.backlog && c.running == d.running
                && spilling == policy.spilling(policy.candidates(workers, first)) ==> policy.score(
                first,
                c,
                spilling,
            ) == policy.score(second, d, spilling),
    ensures
        policy.spilling(policy.candidates(workers, first)) == policy.spilling(
            policy.candidates(workers, second),
        ),
        policy.after_selection(workers, first) == policy.after_selection(workers, second),
        policy.selection(workers, first) is Some <==> policy.selection(workers, second) is Some,
        policy.selection(workers, first) matches Some(selection) ==> policy.selection(
            workers,
            second,
        )->0.index == selection.index,
{
    let a = policy.candidates(workers, first);
    let b = policy.candidates(workers, second);
    lemma_backlogs_decide_spilling(a, b);
    assert(policy.scores(first, a) =~= policy.scores(second, b)) by {
        assert forall|i: int| 0 <= i < a.len() implies policy.scores(first, a)[i]
            == policy.scores(second, b)[i] by {
            let spilling = policy.spilling(a);
            assert(policy.score(first, a[i], spilling) == policy.score(second, b[i], spilling));
        }
    }
    if a.len() > 0 {
        lemma_healthy_count(workers);
        lemma_winner_in_range(policy.scores(first, a), policy.turn);
        let at = winner(policy.scores(first, a), policy.turn) as int;
        assert(a[at].index == b[at].index);
    }
}

/// The spread of the backlogs does not depend on anything else.
proof fn lemma_backlogs_decide_spilling(a: Seq<CandidateModel>, b: Seq<CandidateModel>)
    requires
        a.len() == b.len(),
        forall|i: int| 0 <= i < a.len() ==> (#[trigger] a[i]).backlog == b[i].backlog,
    ensures
        lowest_backlog(a) == lowest_backlog(b),
        highest_backlog(a) == highest_backlog(b),
    decreases a.len(),
{
    if a.len() > 0 {
        assert(a[a.len() - 1].backlog == b[b.len() - 1].backlog);
        lemma_backlogs_decide_spilling(a.drop_last(), b.drop_last());
    }
}

/// Bounded spillover: while the backlog gap exceeds the bound, affinity is
/// ignored entirely. What the workers hold of the request does not change which
/// of them it goes to.
pub proof fn law_spillover_ignores_affinity(
    policy: PolicyModel,
    workers: Seq<Worker>,
    first: SelectWorkerInfo,
    second: SelectWorkerInfo,
)
    requires
        workers.len() <= usize::MAX,
        first.text() == second.text(),
        policy.spilling(policy.candidates(workers, first)),
    ensures
        policy.spilling(policy.candidates(workers, second)),
        policy.selection(workers, first) is Some <==> policy.selection(workers, second) is Some,
        policy.selection(workers, first) matches Some(selection) ==> policy.selection(
            workers,
            second,
        )->0.index == selection.index,
        policy.after_selection(workers, first) == policy.after_selection(workers, second),
{
    lemma_same_scores(policy, workers, first, second);
}

/// Long-prefill gate: short requests never earn affinity. What the workers hold
/// of the request does not change which of them it goes to.
pub proof fn law_short_requests_ignore_affinity(
    policy: PolicyModel,
    workers: Seq<Worker>,
    first: SelectWorkerInfo,
    second: SelectWorkerInfo,
)
    requires
        workers.len() <= usize::MAX,
        first.text() == second.text(),
        policy.est_tokens(first) < policy.config.long_prefill_threshold_tokens,
    ensures
        policy.selection(workers, first) is Some <==> policy.selection(workers, second) is Some,
        policy.selection(workers, first) matches Some(selection) ==> policy.selection(
            workers,
            second,
        )->0.index == selection.index,
        policy.after_selection(workers, first) == policy.after_selection(workers, second),
{
    lemma_same_scores(policy, workers, first, second);
}

/// The chunk size converts to a finite number of at least one.
pub(crate) proof fn lemma_chunk_size(config: ChunkAwareConfig)
    ensures
        chunk_size(config) is Finite,
        !chunk_size(config).is_negative(),
        chunk_size(config)->quanta >= one(),
        one() > 0,
{
    lemma_one_is_exact();
    lemma_integer_is_finite(
        if config.chunk_size_tokens < 1 {
            1
        } else {
            config.chunk_size_tokens as int
        },
    );
}

/// A credit of zero is load-only routing. What the workers hold of the request
/// does not change which of them it goes to.
pub proof fn law_zero_credit_ignores_affinity(
    policy: PolicyModel,
    workers: Seq<Worker>,
    first: SelectWorkerInfo,
    second: SelectWorkerInfo,
)
    requires
        workers.len() <= usize::MAX,
        first.text() == second.text(),
        policy.config.prefix_affinity_credit@ == (Number::Finite { negative: false, quanta: 0 }),
    ensures
        policy.selection(workers, first) is Some <==> policy.selection(workers, second) is Some,
        policy.selection(workers, first) matches Some(selection) ==> policy.selection(
            workers,
            second,
        )->0.index == selection.index,
        policy.after_selection(workers, first) == policy.after_selection(workers, second),
{
    assert forall|c: CandidateModel, info: SelectWorkerInfo| #[trigger]
        policy.credit(info, c) == (Number::Finite { negative: false, quanta: 0 }) by {
        lemma_zero_credit(policy, info, c);
    }
    lemma_same_scores(policy, workers, first, second);
}

proof fn lemma_zero_credit(policy: PolicyModel, info: SelectWorkerInfo, c: CandidateModel)
    requires
        policy.config.prefix_affinity_credit@ == (Number::Finite { negative: false, quanta: 0 }),
    ensures
        policy.credit(info, c) == (Number::Finite { negative: false, quanta: 0 }),
{
    let tokens = tokens_of_chars(policy.config, c.matched_chars as nat);
    lemma_tokens(policy.config, c.matched_chars as nat);
    lemma_chunk_size(policy.config);
    lemma_integer_is_finite(tokens as int);
    let matched = of_integer(tokens as int);
    lemma_quotient_is_finite(matched->quanta, chunk_size(policy.config)->quanta);
    let chunks = quotient(matched, chunk_size(policy.config));
    assert(0 * chunks->quanta == 0) by (nonlinear_arith);
    assert(one() * 0 == 0) by (nonlinear_arith);
    lemma_integer_is_finite(0);
    lemma_zero_rounds(one());
}

/// A number of characters comes to a number of tokens that is not negative, and
/// no characters come to none.
pub(crate) proof fn lemma_tokens(config: ChunkAwareConfig, chars: nat)
    requires
        chars <= 0x4_0000_0000_0000_0000,
    ensures
        tokens_of_chars(config, chars) >= 0,
        chars == 0 ==> tokens_of_chars(config, chars) == 0,
        ({
            let per_token = greater(config.chars_per_token@, of_integer(1));
            let q = quotient(of_integer(chars as int), per_token);
            &&& per_token is Infinite || (per_token is Finite && per_token->quanta >= one())
            &&& !per_token.is_negative()
            &&& q is Finite
            &&& !q.is_negative()
        }),
{
    lemma_one_is_exact();
    lemma_integer_is_finite(chars as int);
    let per_token = greater(config.chars_per_token@, of_integer(1));
    if per_token is Finite {
        lemma_quotient_is_finite(of_integer(chars as int)->quanta, per_token->quanta);
    }
    let q = quotient(of_integer(chars as int), per_token);
    if q->quanta == 0 {
        lemma_basic_div(one() as int, (2 * one()) as int);
    }
}

/// More characters never come to fewer tokens.
pub proof fn law_tokens_grow_with_characters(config: ChunkAwareConfig, fewer: nat, more: nat)
    requires
        fewer <= more <= usize::MAX,
    ensures
        tokens_of_chars(config, fewer) <= tokens_of_chars(config, more),
{
    lemma_tokens(config, fewer);
    lemma_tokens(config, more);
    lemma_integers_ordered(fewer as int, more as int);
    lemma_integer_is_finite(fewer as int);
    lemma_integer_is_finite(more as int);
    let per_token = greater(config.chars_per_token@, of_integer(1));
    let a = quotient(of_integer(fewer as int), per_token);
    let b = quotient(of_integer(more as int), per_token);
    if per_token is Finite {
        lemma_one_is_exact();
        lemma_quotients_ordered(
            of_integer(fewer as int)->quanta,
            per_token->quanta,
            of_integer(more as int)->quanta,
            per_token->quanta,
        );
    }
    assert(a->quanta <= b->quanta);
    lemma_one_is_exact();
    lemma_div_is_ordered(
        (2 * a->quanta + one()) as int,
        (2 * b->quanta + one()) as int,
        (2 * one()) as int,
    );
}

/// Work reservation: a dispatch reserves the uncached remainder of the request.
/// A worker that holds nothing of it is charged all its tokens, one that holds
/// it whole is charged none, and holding more never costs more.
pub proof fn law_only_the_uncached_remainder_is_reserved(
    policy: PolicyModel,
    info: SelectWorkerInfo,
    matched: nat,
    longer: nat,
)
    requires
        info.text().len() <= usize::MAX,
        matched <= longer <= usize::MAX,
    ensures
        ({
            let est = policy.est_tokens(info);
            &&& 0 <= uncached_tokens(policy.config, est, matched) <= est
            &&& uncached_tokens(policy.config, est, 0) == est
            &&& uncached_tokens(policy.config, est, info.text().len()) == 0
            &&& uncached_tokens(policy.config, est, longer) <= uncached_tokens(
                policy.config,
                est,
                matched,
            )
        }),
{
    lemma_tokens(policy.config, info.text().len());
    lemma_tokens(policy.config, matched);
    lemma_tokens(policy.config, 0);
    law_tokens_grow_with_characters(policy.config, matched, longer);
}

/// The selected worker is charged the uncached remainder of the request.
pub proof fn law_selection_reserves_the_remainder(
    policy: PolicyModel,
    workers: Seq<Worker>,
    info: SelectWorkerInfo,
)
    requires
        workers.len() <= usize::MAX,
        info.text().len() <= usize::MAX,
    ensures
        policy.selection(workers, info) matches Some(selection)
            ==> selection.reserved_prefill_tokens == uncached_tokens(
            policy.config,
            policy.est_tokens(info),
            info.matched(selection.index as int) as nat,
        ),
{
    let candidates = policy.candidates(workers, info);
    if candidates.len() > 0 {
        lemma_healthy_count(workers);
        lemma_winner_in_range(policy.scores(info, candidates), policy.turn);
        let at = winner(policy.scores(info, candidates), policy.turn) as int;
        lemma_tokens(policy.config, info.text().len());
        lemma_tokens(policy.config, info.matched(candidates[at].index as int) as nat);
    }
}

/// Each poll re-anchors on what the worker reports: a request that the report
/// already counts is not counted again as a reservation, and one dispatched
/// after the poll adds on top.
pub proof fn law_polls_do_not_double_count(
    policy: PolicyModel,
    workers: Seq<Worker>,
    reports: Map<Seq<char>, PrefillLoadReport>,
    worker: Worker,
    dispatched: i64,
)
    requires
        reports.contains_key(worker.url@),
        worker.reserved_prefill_tokens == reservation_of(workers, worker.url@),
        dispatched >= 0,
        worker.reserved_prefill_tokens + dispatched <= i64::MAX,
    ensures
        ({
            let state = state_of(policy.polled(workers, reports).states, worker.url@);
            let later = Worker {
                reserved_prefill_tokens: (worker.reserved_prefill_tokens + dispatched) as i64,
                ..worker
            };
            &&& backlog_tokens(state, worker) == reports[worker.url@].waiting_uncached_tokens
            &&& backlog_tokens(state, later) == reports[worker.url@].waiting_uncached_tokens
                + dispatched
        }),
{
}

/// A release never drives a reservation below zero, and releasing what was
/// reserved restores it.
pub proof fn law_reservations_are_released(reserved: i64, tokens: i64)
    requires
        reserved >= 0,
        tokens >= 0,
        reserved + tokens <= i64::MAX,
    ensures
        forall|delta: i64| #[trigger] reservation_after(reserved, delta) >= 0,
        reservation_after(reserved, tokens) == reserved + tokens,
        reservation_after(reservation_after(reserved, tokens), (-tokens) as i64) == reserved,
{
}

/// Among equally scored workers the winner rotates: of as many requests in a row
/// as there are ties, one goes to each of them.
pub proof fn law_ties_rotate(scores: Seq<Number>, turn: usize, place: int) -> (later: usize)
    requires
        tied(scores).len() >= 2,
        scores.len() <= usize::MAX,
        turn + tied(scores).len() <= usize::MAX,
        0 <= place < tied(scores).len(),
    ensures
        next_turn(scores, turn) == turn + 1,
        turn <= later < turn + tied(scores).len(),
        winner(scores, later) == tied(scores)[place],
        forall|other: usize|
            turn <= other < turn + tied(scores).len() && other != later ==> #[trigger] winner(
                scores,
                other,
            ) != tied(scores)[place],
{
    lemma_tied(scores);
    let tied = tied(scores);
    let n = tied.len() as int;
    let k = (place - turn) % n;
    lemma_mod_bound(place - turn, n);
    lemma_add_mod_noop(turn as int, place - turn, n);
    lemma_add_mod_noop(turn as int, k, n);
    lemma_mod_twice(place - turn, n);
    lemma_small_mod(place as nat, n as nat);
    let later = (turn + k) as usize;
    assert(later as int % n == place);
    assert forall|other: usize| turn <= other < turn + n && other != later implies
        #[trigger] winner(scores, other) != tied[place] by {
        let spot = other as int % n;
        lemma_mod_bound(other as int, n);
        if spot < place {
            assert(tied[spot] < tied[place]);
        } else if spot > place {
            assert(tied[place] < tied[spot]);
        } else {
            lemma_fundamental_div_mod(other as int, n);
            lemma_fundamental_div_mod(later as int, n);
            let x = other as int / n;
            let y = later as int / n;
            assert(false) by (nonlinear_arith)
                requires
                    n > 0,
                    other - later == n * x - n * y,
                    -n < other - later < n,
                    other != later,
            ;
        }
    }
    later
}

/// A fresh policy hands the ties their turns in order, and then begins again.
/// Where one score alone is the lowest, it wins and no turn is taken.
pub proof fn law_turns_go_in_order(scores: Seq<Number>, turn: usize)
    requires
        turn <= tied(scores).len(),
    ensures
        tied(scores).len() >= 2 && turn < tied(scores).len() ==> winner(scores, turn)
            == tied(scores)[turn as int],
        tied(scores).len() >= 2 && turn == tied(scores).len() ==> winner(scores, turn)
            == tied(scores)[0],
        tied(scores).len() == 1 ==> winner(scores, turn) == tied(scores)[0] && next_turn(
            scores,
            turn,
        ) == turn,
{
    if tied(scores).len() >= 2 {
        let n = tied(scores).len();
        if turn < n {
            lemma_small_mod(turn as nat, n);
        } else {
            lemma_mod_self_0(n as int);
        }
    }
}

/// Tokens over the chunk size.
pub(crate) proof fn lemma_base(config: ChunkAwareConfig, tokens: int)
    requires
        tokens <= 0x4_0000_0000_0000_0000,
    ensures
        ({
            let base = chunks_of_tokens(config, tokens, None, None);
            &&& base is Finite
            &&& !base.is_negative()
            &&& base->quanta <= pow2(1140)
            &&& is_double(base)
        }),
{
    let queued = if tokens < 0 {
        0
    } else {
        tokens
    };
    let size = if config.chunk_size_tokens < 1 {
        1
    } else {
        config.chunk_size_tokens as int
    };
    lemma_chunk_size(config);
    lemma_integer_is_finite(queued);
    lemma_integer_is_double(queued);
    lemma_integer_is_double(size);
    lemma_quotient_is_finite(of_integer(queued)->quanta, chunk_size(config)->quanta);
    lemma_results_are_doubles(of_integer(queued), chunk_size(config));
}

/// The factor by which a worker's backlog is scaled.
pub(crate) proof fn lemma_factor(rate: Number, median: Number)
    requires
        is_rate(rate),
        is_rate(median),
    ensures
        positive(rate),
        positive(median),
        quotient(median, rate) is Finite,
        !quotient(median, rate).is_negative(),
        quotient(median, rate)->quanta <= pow2(1204),
        is_double(quotient(median, rate)),
{
    lemma_pow2_pos(1008);
    lemma_results_are_doubles(median, rate);
    lemma_rounded_within(false, median->quanta * one(), rate->quanta, 1204);
    lemma_pow2_adds(1138, 1074);
    lemma_pow2_adds(1008, 1204);
    assert(median->quanta * one() <= pow2(1138) * one()) by (nonlinear_arith)
        requires
            median->quanta <= pow2(1138),
    ;
    assert(pow2(1008) * pow2(1204) <= rate->quanta * pow2(1204)) by (nonlinear_arith)
        requires
            pow2(1008) <= rate->quanta,
    ;
}

/// A backlog in chunks is a finite number that is not negative.
pub(crate) proof fn lemma_chunks(
    config: ChunkAwareConfig,
    tokens: int,
    rate: Option<Number>,
    median: Option<Number>,
)
    requires
        tokens <= 0x4_0000_0000_0000_0000,
        rate matches Some(rate) ==> is_rate(rate),
        median matches Some(median) ==> is_rate(median),
    ensures
        ({
            let chunks = chunks_of_tokens(config, tokens, rate, median);
            &&& chunks is Finite
            &&& !chunks.is_negative()
            &&& chunks->quanta <= pow2(1270)
            &&& is_double(chunks)
        }),
{
    lemma_base(config, tokens);
    lemma_pow2_strictly_increases(1140, 1270);
    if let (Some(rate), Some(median)) = (rate, median) {
        let base = chunks_of_tokens(config, tokens, None, None);
        let factor = quotient(median, rate);
        lemma_factor(rate, median);
        lemma_results_are_doubles(base, factor);
        lemma_pow2_pos(1074);
        lemma_rounded_within(false, base->quanta * factor->quanta, one(), 1270);
        lemma_pow2_adds(1140, 1204);
        lemma_pow2_adds(1074, 1270);
        assert(base->quanta * factor->quanta <= pow2(1140) * pow2(1204)) by (nonlinear_arith)
            requires
                base->quanta <= pow2(1140),
                factor->quanta <= pow2(1204),
        ;
    }
}

/// The policy starts sound, and placing requests, removing workers and resetting
/// keep it so. (So does a poll: see `update_prefill_loads`.)
pub proof fn law_policies_stay_sound(
    policy: PolicyModel,
    workers: Seq<Worker>,
    info: SelectWorkerInfo,
    url: Seq<char>,
)
    requires
        policy.is_sound(),
    ensures
        PolicyModel::fresh(policy.config).is_sound(),
        policy.after_selection(workers, info).is_sound(),
        policy.without(url).is_sound(),
{
}

/// In a sound policy every backlog is a finite number that is not negative.
pub proof fn law_backlogs_are_finite(
    policy: PolicyModel,
    workers: Seq<Worker>,
    info: SelectWorkerInfo,
    place: int,
)
    requires
        policy.is_sound(),
        0 <= place < policy.candidates(workers, info).len(),
    ensures
        ({
            let backlog = policy.candidates(workers, info)[place].backlog;
            &&& backlog is Finite
            &&& !backlog.is_negative()
            &&& backlog->quanta <= pow2(1270)
            &&& is_double(backlog)
        }),
{
    let worker = workers[healthy_indices(workers)[place] as int];
    let state = state_of(policy.states, worker.url@);
    lemma_chunks(policy.config, backlog_tokens(state, worker), state.rate, policy.median);
}

/// Bounded spillover: while the backlog gap exceeds the bound, the
/// least-backlogged worker wins, whatever else holds of the workers. The chosen
/// worker's backlog is above that of no available worker by more than `2e-9`.
pub proof fn law_spillover_picks_the_least_backlogged(
    policy: PolicyModel,
    workers: Seq<Worker>,
    info: SelectWorkerInfo,
)
    requires
        workers.len() <= usize::MAX,
        policy.is_sound(),
        healthy_indices(workers).len() > 0,
        policy.spilling(policy.candidates(workers, info)),
    ensures
        ({
            let candidates = policy.candidates(workers, info);
            let chosen = policy.chosen(workers, info);
            &&& policy.selection(workers, info) matches Some(selection) && selection.index
                == chosen.index
            &&& candidates.contains(chosen)
            &&& forall|i: int|
                0 <= i < candidates.len() ==> barely_above(
                    chosen.backlog,
                    (#[trigger] candidates[i]).backlog,
                )
        }),
{
    let candidates = policy.candidates(workers, info);
    let scores = policy.scores(info, candidates);
    lemma_healthy_count(workers);
    assert forall|i: int| 0 <= i < scores.len() implies (#[trigger] scores[i]) is Finite by {
        law_backlogs_are_finite(policy, workers, info, i);
    }
    assert(scores[0] is Finite);
    law_the_lowest_score_wins(scores, policy.turn);
    let place = winner(scores, policy.turn) as int;
    assert(candidates[place] == policy.chosen(workers, info));
    assert forall|i: int| 0 <= i < candidates.len() implies barely_above(
        candidates[place].backlog,
        (#[trigger] candidates[i]).backlog,
    ) by {
        assert(scores[i] == candidates[i].backlog);
    }
}

/// The backlog of a worker is what it reported, and what was reserved on it since
/// that report: a reservation counter at or below the baseline of the report adds
/// nothing, and takes nothing off.
pub proof fn law_reservations_since_the_report_count(
    policy: PolicyModel,
    workers: Seq<Worker>,
    index: usize,
    matched_chars: usize,
    est_tokens: int,
)
    ensures
        ({
            let worker = workers[index as int];
            let state = state_of(policy.states, worker.url@);
            let reported = state.report.waiting_uncached_tokens;
            let since = worker.reserved_prefill_tokens - state.reservation_baseline;
            policy.candidate(workers, index, matched_chars, est_tokens).backlog
                == chunks_of_tokens(
                policy.config,
                if since > 0 {
                    reported + since
                } else {
                    reported as int
                },
                state.rate,
                policy.median,
            )
        }),
{
}

/// A worker without a measured rate is charged its tokens over the chunk size,
/// whatever the rest of the fleet does.
pub proof fn law_unmeasured_workers_use_the_proxy(
    config: ChunkAwareConfig,
    tokens: int,
    median: Option<Number>,
)
    ensures
        chunks_of_tokens(config, tokens, None, median) == chunks_of_tokens(
            config,
            tokens,
            None,
            None,
        ),
{
}

/// A homogeneous fleet, where every measured rate is the median, scores exactly
/// as the plain proxy of tokens over chunk size does.
pub proof fn law_homogeneous_fleets_use_the_proxy(
    policy: PolicyModel,
    workers: Seq<Worker>,
    info: SelectWorkerInfo,
)
    requires
        policy.is_sound(),
        forall|url: Seq<char>| #[trigger]
            policy.states.contains_key(url) ==> policy.states[url].rate is None
                || policy.states[url].rate == policy.median,
    ensures
        ({
            let proxy = PolicyModel { median: None, ..policy };
            &&& policy.candidates(workers, info) == proxy.candidates(workers, info)
            &&& policy.selection(workers, info) == proxy.selection(workers, info)
        }),
{
    let proxy = PolicyModel { median: None, ..policy };
    let plain = proxy.candidates(workers, info);
    let scaled = policy.candidates(workers, info);
    assert forall|i: int| 0 <= i < plain.len() implies plain[i] == scaled[i] by {
        let worker = workers[healthy_indices(workers)[i] as int];
        let state = state_of(policy.states, worker.url@);
        if let Some(rate) = state.rate {
            lemma_equal_rates(policy.config, backlog_tokens(state, worker), rate);
        }
    }
    assert(plain =~= scaled);
    assert(policy.scores(info, scaled) =~= proxy.scores(info, plain));
}

/// At the median rate the factor is one.
proof fn lemma_equal_rates(config: ChunkAwareConfig, tokens: int, rate: Number)
    requires
        tokens <= 0x4_0000_0000_0000_0000,
        is_rate(rate),
    ensures
        chunks_of_tokens(config, tokens, Some(rate), Some(rate)) == chunks_of_tokens(
            config,
            tokens,
            None,
            None,
        ),
{
    lemma_pow2_pos(1008);
    lemma_base(config, tokens);
    lemma_self_quotient(rate->quanta);
    lemma_times_one(chunks_of_tokens(config, tokens, None, None));
}

/// A worker that prefills at half the fleet's rate is charged twice the backlog
/// for the same token count.
pub proof fn law_half_the_rate_is_charged_twice(
    config: ChunkAwareConfig,
    tokens: int,
    rate: Number,
    median: Number,
)
    requires
        tokens <= 0x4_0000_0000_0000_0000,
        rate is Finite,
        positive(rate),
        median is Finite,
        median.signed() == 2 * rate.signed(),
    ensures
        chunks_of_tokens(config, tokens, Some(rate), Some(median)) is Finite,
        chunks_of_tokens(config, tokens, Some(rate), Some(median)).signed() == 2
            * chunks_of_tokens(config, tokens, None, None).signed(),
{
    lemma_base(config, tokens);
    lemma_quotient_by_half(rate->quanta);
    lemma_pow2_unfold(1141);
    lemma_pow2_strictly_increases(1141, 2098);
    lemma_times_two(chunks_of_tokens(config, tokens, None, None));
}

/// The slower a worker, the more the same token count is charged.
pub proof fn law_slower_workers_are_charged_more(
    config: ChunkAwareConfig,
    tokens: int,
    slow: Number,
    fast: Number,
    median: Number,
)
    requires
        tokens <= 0x4_0000_0000_0000_0000,
        is_rate(slow),
        is_rate(fast),
        is_rate(median),
        at_most(slow, fast),
    ensures
        at_most(
            chunks_of_tokens(config, tokens, Some(fast), Some(median)),
            chunks_of_tokens(config, tokens, Some(slow), Some(median)),
        ),
{
    lemma_base(config, tokens);
    lemma_factor(slow, median);
    lemma_factor(fast, median);
    let base = chunks_of_tokens(config, tokens, None, None);
    lemma_quotients_ordered(median->quanta, fast->quanta, median->quanta, slow->quanta);
    let low = quotient(median, fast);
    let high = quotient(median, slow);
    lemma_products_ordered(base->quanta, low->quanta, base->quanta, high->quanta);
}

/// More queued tokens never make a worker look less loaded: the backlog in chunks
/// grows with the tokens, and so with every reservation.
pub proof fn law_backlog_grows_with_tokens(
    config: ChunkAwareConfig,
    fewer: int,
    more: int,
    rate: Option<Number>,
    median: Option<Number>,
)
    requires
        fewer <= more <= 0x4_0000_0000_0000_0000,
        rate matches Some(rate) ==> is_rate(rate),
        median matches Some(median) ==> is_rate(median),
    ensures
        at_most(
            chunks_of_tokens(config, fewer, rate, median),
            chunks_of_tokens(config, more, rate, median),
        ),
{
    lemma_base(config, fewer);
    lemma_base(config, more);
    lemma_chunk_size(config);
    let few = if fewer < 0 {
        0
    } else {
        fewer
    };
    let many = if more < 0 {
        0
    } else {
        more
    };
    lemma_integers_ordered(few, many);
    lemma_integer_is_finite(few);
    lemma_integer_is_finite(many);
    lemma_quotients_ordered(
        of_integer(few)->quanta,
        chunk_size(config)->quanta,
        of_integer(many)->quanta,
        chunk_size(config)->quanta,
    );
    if let (Some(rate), Some(median)) = (rate, median) {
        let low = chunks_of_tokens(config, fewer, None, None);
        let high = chunks_of_tokens(config, more, None, None);
        let factor = quotient(median, rate);
        lemma_factor(rate, median);
        lemma_products_ordered(low->quanta, factor->quanta, high->quanta, factor->quanta);
    }
}

/// Pending work always shows: a worker with queued tokens, reported or reserved
/// since the last poll, has a positive backlog, and one without has none.
pub proof fn law_pending_work_shows(
    config: ChunkAwareConfig,
    tokens: int,
    rate: Option<Number>,
    median: Option<Number>,
)
    requires
        tokens <= 0x4_0000_0000_0000_0000,
        rate matches Some(rate) ==> is_rate(rate),
        median matches Some(median) ==> is_rate(median),
    ensures
        positive(chunks_of_tokens(config, tokens, rate, median)) <==> tokens > 0,
{
    lemma_chunks(config, tokens, rate, median);
    lemma_base(config, tokens);
    lemma_chunk_size(config);
    let base = chunks_of_tokens(config, tokens, None, None);
    let queued = if tokens < 0 {
        0
    } else {
        tokens
    };
    lemma_integer_is_finite(queued);
    lemma_integer_is_finite(
        if config.chunk_size_tokens < 1 {
            1
        } else {
            config.chunk_size_tokens as int
        },
    );
    let p = of_integer(queued)->quanta;
    let q = chunk_size(config)->quanta;
    lemma_pow2_pos(1008);
    lemma_pow2_pos(1074);
    if tokens > 0 {
        lemma_pow2_adds(1074, 1074);
        lemma_pow2_adds(1140, 1008);
        assert(one() * one() <= p * one()) by (nonlinear_arith)
            requires
                one() <= p,
        ;
        assert(q * pow2(1008) <= pow2(1140) * pow2(1008)) by (nonlinear_arith)
            requires
                q <= pow2(1140),
        ;
        lemma_rounded_within(false, p * one(), q, 1008);
    } else {
        lemma_quotient_is_finite(p, q);
    }
    if let (Some(rate), Some(median)) = (rate, median) {
        let factor = quotient(median, rate);
        lemma_factor(rate, median);
        if tokens > 0 {
            lemma_pow2_adds(1008, 1074);
            lemma_pow2_adds(1138, 944);
            assert(pow2(1008) * one() <= median->quanta * one()) by (nonlinear_arith)
                requires
                    pow2(1008) <= median->quanta,
            ;
            assert(rate->quanta * pow2(944) <= pow2(1138) * pow2(944)) by (nonlinear_arith)
                requires
                    rate->quanta <= pow2(1138),
            ;
            lemma_rounded_within(false, median->quanta * one(), rate->quanta, 944);
            lemma_pow2_adds(1008, 944);
            lemma_pow2_adds(1074, 878);
            assert(pow2(1008) * pow2(944) <= base->quanta * factor->quanta) by (nonlinear_arith)
                requires
                    pow2(1008) <= base->quanta,
                    pow2(944) <= factor->quanta,
            ;
            lemma_rounded_within(false, base->quanta * factor->quanta, one(), 878);
            lemma_pow2_pos(878);
        } else {
            assert(0 * factor->quanta == 0) by (nonlinear_arith);
            lemma_zero_rounds(one());
        }
    }
}

/// A product of two bounded numbers is bounded.
pub(crate) proof fn lemma_product_within(a: Number, b: Number, i: nat, j: nat)
    requires
        a is Finite,
        b is Finite,
        a->quanta <= pow2(i),
        b->quanta <= pow2(j),
        1074 <= i + j < 3172,
    ensures
        product(a, b) is Finite,
        product(a, b)->quanta <= pow2((i + j - 1074) as nat),
        product(a, b).is_negative() == (a.is_negative() != b.is_negative()),
{
    let k = (i + j - 1074) as nat;
    lemma_pow2_pos(1074);
    lemma_pow2_adds(i, j);
    lemma_pow2_adds(1074, k);
    assert(a->quanta * b->quanta <= pow2(i) * pow2(j)) by (nonlinear_arith)
        requires
            a->quanta <= pow2(i),
            b->quanta <= pow2(j),
    ;
    lemma_rounded_within(a.is_negative() != b.is_negative(), a->quanta * b->quanta, one(), k);
}

/// A sum of two bounded numbers is bounded.
pub(crate) proof fn lemma_sum_within(a: Number, b: Number, k: nat)
    requires
        a is Finite,
        b is Finite,
        a->quanta <= pow2(k),
        b->quanta <= pow2(k),
        k < 2097,
    ensures
        sum(a, b) is Finite,
        sum(a, b)->quanta <= pow2(k + 1),
{
    lemma_pow2_unfold(k + 1);
    let total = a.signed() + b.signed();
    lemma_rounded_within(
        total < 0,
        (if total < 0 {
            -total
        } else {
            total
        }) as nat,
        1,
        k + 1,
    );
}

/// Whether the weights of a configuration are finite single-precision numbers.
pub open spec fn has_finite_weights(config: ChunkAwareConfig) -> bool {
    &&& config.load_weight@ is Finite
    &&& config.load_weight@->quanta <= pow2(1202)
    &&& config.prefill_work_weight@ is Finite
    &&& config.prefill_work_weight@->quanta <= pow2(1202)
    &&& config.prefix_affinity_credit@ is Finite
    &&& config.prefix_affinity_credit@->quanta <= pow2(1202)
}

/// The pressure on a candidate, and the credit it earns, are finite.
pub(crate) proof fn lemma_terms(
    policy: PolicyModel,
    workers: Seq<Worker>,
    info: SelectWorkerInfo,
    place: int,
)
    requires
        policy.is_sound(),
        has_finite_weights(policy.config),
        0 <= place < policy.candidates(workers, info).len(),
    ensures
        ({
            let candidate = policy.candidates(workers, info)[place];
            let pressure = policy.pressure(candidate);
            let credit = policy.credit(info, candidate);
            &&& pressure is Finite
            &&& pressure->quanta <= pow2(1399)
            &&& is_double(pressure)
            &&& credit is Finite
            &&& credit->quanta <= pow2(1399)
            &&& is_double(credit)
            &&& policy.config.prefix_affinity_credit@.signed() >= 0 ==> credit.signed() >= 0
        }),
{
    let config = policy.config;
    let candidate = policy.candidates(workers, info)[place];
    let worker = workers[healthy_indices(workers)[place] as int];
    let state = state_of(policy.states, worker.url@);
    law_backlogs_are_finite(policy, workers, info, place);
    lemma_running(running_requests(state, worker));
    lemma_pattern_is_double(config.load_weight);
    lemma_pattern_is_double(config.prefill_work_weight);
    lemma_pattern_is_double(config.prefix_affinity_credit);
    let load = product(config.load_weight@, candidate.running);
    let work = product(config.prefill_work_weight@, candidate.backlog);
    lemma_results_are_doubles(config.load_weight@, candidate.running);
    lemma_results_are_doubles(config.prefill_work_weight@, candidate.backlog);
    lemma_results_are_doubles(load, work);
    lemma_product_within(config.load_weight@, candidate.running, 1202, 1270);
    lemma_product_within(config.prefill_work_weight@, candidate.backlog, 1202, 1270);
    lemma_sum_within(load, work, 1398);
    let tokens = tokens_of_chars(config, candidate.matched_chars as nat);
    lemma_tokens(config, candidate.matched_chars as nat);
    let matched = chunks_of_tokens(config, tokens as int, None, None);
    lemma_base(config, tokens as int);
    lemma_results_are_doubles(config.prefix_affinity_credit@, matched);
    lemma_product_within(config.prefix_affinity_credit@, matched, 1202, 1140);
    lemma_pow2_strictly_increases(1268, 1399);
    lemma_zero_is_double();
    if config.prefix_affinity_credit@.signed() >= 0
        && config.prefix_affinity_credit@.is_negative() {
        // The weight is a negative zero, and so is the credit.
        assert(0 * matched->quanta == 0) by (nonlinear_arith);
        lemma_pow2_pos(1074);
        lemma_zero_rounds(one());
    }
}

/// A count of running requests is finite.
pub(crate) proof fn lemma_running(n: int)
    requires
        -0x1_0000_0000_0000_0000 <= n <= 0x1_0000_0000_0000_0000,
    ensures
        of_integer(n) is Finite,
        of_integer(n)->quanta <= pow2(1270),
        is_double(of_integer(n)),
{
    let magnitude = (if n < 0 {
        -n
    } else {
        n
    }) as nat;
    lemma_integer_is_double(n);
    lemma2_to64();
    lemma_pow2_adds(64, 1074);
    lemma_pow2_strictly_increases(1138, 1270);
    assert(magnitude * one() <= 1 * pow2(1138)) by (nonlinear_arith)
        requires
            magnitude <= pow2(64),
            pow2(1138) == pow2(64) * one(),
    ;
    lemma_rounded_within(n < 0, magnitude * one(), 1, 1138);
}

/// In a sound policy with finite weights every score is a finite number.
pub proof fn law_scores_are_finite(
    policy: PolicyModel,
    workers: Seq<Worker>,
    info: SelectWorkerInfo,
    place: int,
)
    requires
        policy.is_sound(),
        has_finite_weights(policy.config),
        0 <= place < policy.candidates(workers, info).len(),
    ensures
        ({
            let score = policy.scores(info, policy.candidates(workers, info))[place];
            score is Finite && is_double(score)
        }),
{
    let candidate = policy.candidates(workers, info)[place];
    lemma_terms(policy, workers, info, place);
    law_backlogs_are_finite(policy, workers, info, place);
    let pressure = policy.pressure(candidate);
    let credit = policy.credit(info, candidate);
    lemma_results_are_doubles(pressure, credit);
    lemma_sum_within(pressure, negated(credit), 1399);
}

/// The lowest score wins, up to the tolerance of a tie: the selected worker's
/// score is above that of no available worker by more than `2e-9`.
pub proof fn law_selection_has_the_lowest_score(
    policy: PolicyModel,
    workers: Seq<Worker>,
    info: SelectWorkerInfo,
)
    requires
        workers.len() <= usize::MAX,
        policy.is_sound(),
        has_finite_weights(policy.config),
        healthy_indices(workers).len() > 0,
    ensures
        ({
            let candidates = policy.candidates(workers, info);
            let scores = policy.scores(info, candidates);
            let place = winner(scores, policy.turn) as int;
            &&& 0 <= place < scores.len()
            &&& policy.selection(workers, info) matches Some(selection) && selection.index
                == candidates[place].index
            &&& forall|i: int|
                0 <= i < scores.len() ==> barely_above(scores[place], #[trigger] scores[i])
        }),
{
    let candidates = policy.candidates(workers, info);
    let scores = policy.scores(info, candidates);
    lemma_healthy_count(workers);
    assert forall|i: int| 0 <= i < scores.len() implies (#[trigger] scores[i]) is Finite by {
        law_scores_are_finite(policy, workers, info, i);
    }
    assert(scores[0] is Finite);
    law_the_lowest_score_wins(scores, policy.turn);
}

/// Affinity is a credit: holding a prefix never raises a worker's score.
pub proof fn law_a_match_never_hurts(
    policy: PolicyModel,
    workers: Seq<Worker>,
    info: SelectWorkerInfo,
    place: int,
    spilling: bool,
)
    requires
        policy.is_sound(),
        has_finite_weights(policy.config),
        policy.config.prefix_affinity_credit@.signed() >= 0,
        0 <= place < policy.candidates(workers, info).len(),
    ensures
        ({
            let candidate = policy.candidates(workers, info)[place];
            let cold = CandidateModel { matched_chars: 0, ..candidate };
            at_most(
                policy.score(info, candidate, spilling),
                policy.score(info, cold, spilling),
            )
        }),
{
    let candidate = policy.candidates(workers, info)[place];
    lemma_terms(policy, workers, info, place);
    law_backlogs_are_finite(policy, workers, info, place);
    let pressure = policy.pressure(candidate);
    let credit = policy.credit(info, candidate);
    lemma_totals_ordered(
        pressure.signed() + negated(credit).signed(),
        pressure.is_negative() && negated(credit).is_negative(),
        pressure.signed(),
        pressure.is_negative(),
    );
}

/// The reach of the affinity credit: a worker that earns it does not score worse
/// than one that earns none as long as its pressure is ahead by no more than the
/// credit, and does not score better from there on.
pub proof fn law_credit_outweighs_a_gap_of_its_size(
    policy: PolicyModel,
    workers: Seq<Worker>,
    info: SelectWorkerInfo,
    holder: int,
    other: int,
)
    requires
        policy.is_sound(),
        has_finite_weights(policy.config),
        0 <= holder < policy.candidates(workers, info).len(),
        0 <= other < policy.candidates(workers, info).len(),
        policy.credit(info, policy.candidates(workers, info)[other]).signed() == 0,
    ensures
        ({
            let candidates = policy.candidates(workers, info);
            let ahead = policy.pressure(candidates[holder]).signed() - policy.pressure(
                candidates[other],
            ).signed();
            let credit = policy.credit(info, candidates[holder]).signed();
            let held = policy.score(info, candidates[holder], false);
            let cold = policy.score(info, candidates[other], false);
            &&& ahead <= credit ==> at_most(held, cold)
            &&& ahead >= credit ==> at_most(cold, held)
        }),
{
    let candidates = policy.candidates(workers, info);
    lemma_terms(policy, workers, info, holder);
    lemma_terms(policy, workers, info, other);
    let p = policy.pressure(candidates[holder]);
    let c = policy.credit(info, candidates[holder]);
    let q = policy.pressure(candidates[other]);
    let z = policy.credit(info, candidates[other]);
    let held = p.signed() + negated(c).signed();
    let cold = q.signed() + negated(z).signed();
    let x = p.is_negative() && negated(c).is_negative();
    let y = q.is_negative() && negated(z).is_negative();
    if held <= cold {
        lemma_totals_ordered(held, x, cold, y);
    }
    if cold <= held {
        lemma_totals_ordered(cold, y, held, x);
    }
}

/// Where the chunk size is a power of two, tokens over chunk size are exact.
proof fn lemma_exact_chunks(config: ChunkAwareConfig, tokens: int, k: nat) -> (quanta: nat)
    requires
        config.chunk_size_tokens == pow2(k),
        k <= 64,
        0 <= tokens < 0x20_0000_0000_0000,
    ensures
        chunks_of_tokens(config, tokens, None, None) == (Number::Finite {
            negative: false,
            quanta,
        }),
        quanta * pow2(k) == tokens * one(),
        quanta == tokens * pow2((1074 - k) as nat),
        is_double(Number::Finite { negative: false, quanta }),
{
    let unit = pow2((1074 - k) as nat);
    let quanta = (tokens * unit) as nat;
    let size = pow2(k) * one();
    lemma2_to64();
    lemma2_to64_rest();
    lemma_pow2_pos(k);
    lemma_pow2_pos(1074);
    lemma_pow2_pos((1074 - k) as nat);
    lemma_pow2_adds(k, (1074 - k) as nat);
    lemma_pow2_adds(k, 1074);
    lemma_pow2_strictly_increases(k + 1074, 2098);
    assert(1 * pow2(k + 1074) == size);
    lemma_rounding_is_idempotent(size, 1);
    assert(chunk_size(config) == (Number::Finite { negative: false, quanta: size }));
    lemma_integer_is_exact(tokens);
    assert(tokens as nat * unit == quanta);
    assert(size * quanta == (tokens as nat * one()) * one()) by (nonlinear_arith)
        requires
            size == pow2(k) * one(),
            quanta == tokens * unit,
            pow2(k) * unit == one(),
            tokens >= 0,
    ;
    assert(size > 0) by (nonlinear_arith)
        requires
            size == pow2(k) * one(),
            pow2(k) > 0,
            one() > 0,
    ;
    assert(quanta * pow2(k) == tokens * one()) by (nonlinear_arith)
        requires
            quanta == tokens * unit,
            pow2(k) * unit == one(),
    ;
    lemma_rounding_is_idempotent(quanta, size);
    assert(quanta <= tokens * one()) by (nonlinear_arith)
        requires
            quanta * pow2(k) == tokens * one(),
            pow2(k) >= 1,
    ;
    lemma_pow2_adds(53, 1074);
    assert(tokens * one() < pow2(53) * one()) by (nonlinear_arith)
        requires
            tokens < pow2(53),
            one() > 0,
    ;
    lemma_pow2_strictly_increases(1127, 2098);
    quanta
}

/// The pressure on an idle worker of a fleet without rates is its backlog, where
/// that weighs one.
proof fn lemma_idle_pressure(config: ChunkAwareConfig, candidate: CandidateModel)
    requires
        config.load_weight@ is Finite,
        config.prefill_work_weight@ == (Number::Finite { negative: false, quanta: one() }),
        candidate.running == of_integer(0),
        candidate.backlog is Finite,
        is_double(candidate.backlog),
    ensures
        sum(
            product(config.load_weight@, candidate.running),
            product(config.prefill_work_weight@, candidate.backlog),
        ).signed() == candidate.backlog.signed(),
{
    let backlog = candidate.backlog;
    let quanta = backlog->quanta;
    lemma_pow2_pos(1074);
    lemma_integer_is_finite(0);
    let weight = config.load_weight@->quanta;
    assert(weight * 0 == 0) by (nonlinear_arith);
    lemma_zero_rounds(one());
    lemma_rounding_is_idempotent(quanta, one());
    lemma_rounding_is_idempotent(quanta, 1);
    let work = product(config.prefill_work_weight@, backlog);
    assert(work == backlog);
    lemma_total_is_exact(
        backlog.signed(),
        product(config.load_weight@, candidate.running).is_negative() && backlog.is_negative(),
    );
}

/// The credit, in chunks, is the credit weight times the matched tokens, shifted
/// down by the chunk size.
proof fn lemma_credit_scales(weight: Number, tokens: int, chunks: nat, k: nat)
    requires
        weight is Finite,
        weight->quanta == 0 || weight->quanta >= pow2(925),
        0 <= tokens < 0x20_0000_0000_0000,
        k <= 64,
        chunks == tokens * pow2((1074 - k) as nat),
        chunks * pow2(k) == tokens * one(),
        product(weight, of_integer(tokens)) is Finite,
        product(weight, Number::Finite { negative: false, quanta: chunks }) is Finite,
    ensures
        product(weight, Number::Finite { negative: false, quanta: chunks }).signed() * pow2(k)
            == product(weight, of_integer(tokens)).signed(),
{
    let w = weight->quanta;
    lemma_integer_is_exact(tokens);
    lemma_pow2_pos(1074);
    lemma_pow2_pos(k);
    if w == 0 || tokens == 0 {
        assert(w * chunks == 0) by (nonlinear_arith)
            requires
                w == 0 || chunks == 0,
        ;
        assert(w * (tokens as nat * one()) == 0) by (nonlinear_arith)
            requires
                w == 0 || tokens == 0,
        ;
        lemma_zero_rounds(one());
        assert(0 * pow2(k) == 0) by (nonlinear_arith);
    } else {
        let unit = pow2((1074 - k) as nat);
        assert(w * chunks >= pow2(925) * unit) by (nonlinear_arith)
            requires
                w >= pow2(925),
                chunks == tokens * unit,
                tokens >= 1,
        ;
        lemma_pow2_adds(925, (1074 - k) as nat);
        lemma_pow2_adds(1074, 53);
        lemma_pow2_monotone(1074 + 53, (925 + 1074 - k) as nat);
        lemma_nearest_scales(w * chunks, one(), 53, k);
        assert((w * chunks) * pow2(k) == w * (tokens as nat * one())) by (nonlinear_arith)
            requires
                chunks * pow2(k) == tokens * one(),
                tokens >= 0,
        ;
        let near = nearest(w * chunks, one(), 53, 0);
        assert((-(near as int)) * pow2(k) == -(pow2(k) * near)) by (nonlinear_arith);
        assert(near * pow2(k) == pow2(k) * near) by (nonlinear_arith);
    }
}

/// The reach of the affinity credit has a closed form: between idle workers of a
/// fleet without rates the chunk size cancels, and the worker that holds the
/// prefix does not score worse as long as it is behind by no more than
/// `prefix_affinity_credit * match_tokens` tokens, and not better from there on.
/// The product is the nearest number to it. The chunk size is a power of two,
/// and the counts are such that they convert exactly.
pub proof fn law_reach_is_credit_times_match_tokens(
    policy: PolicyModel,
    workers: Seq<Worker>,
    info: SelectWorkerInfo,
    holder: int,
    other: int,
    k: nat,
)
    requires
        policy.is_sound(),
        policy.median is None,
        has_finite_weights(policy.config),
        policy.config.chunk_size_tokens == pow2(k),
        policy.config.prefill_work_weight@ == (Number::Finite { negative: false, quanta: one() }),
        ({
            let weight = policy.config.prefix_affinity_credit@->quanta;
            weight == 0 || weight >= pow2(925)
        }),
        0 <= holder < policy.candidates(workers, info).len(),
        0 <= other < policy.candidates(workers, info).len(),
        ({
            let candidates = policy.candidates(workers, info);
            &&& candidates[holder].running == of_integer(0)
            &&& candidates[other].running == of_integer(0)
            &&& policy.is_long(info)
            &&& candidates[holder].matched_chars >= policy.min_match_chars(info)
            &&& candidates[holder].matched_chars > 0
            &&& candidates[other].matched_chars == 0
            &&& tokens_of_chars(policy.config, candidates[holder].matched_chars as nat)
                < 0x20_0000_0000_0000
            &&& 0 <= policy.tokens_at(workers, holder) < 0x20_0000_0000_0000
            &&& 0 <= policy.tokens_at(workers, other) < 0x20_0000_0000_0000
        }),
    ensures
        ({
            let candidates = policy.candidates(workers, info);
            let behind = policy.tokens_at(workers, holder) - policy.tokens_at(workers, other);
            let matched = tokens_of_chars(policy.config, candidates[holder].matched_chars as nat);
            let reach = product(policy.config.prefix_affinity_credit@, of_integer(matched as int));
            let held = policy.score(info, candidates[holder], false);
            let cold = policy.score(info, candidates[other], false);
            &&& behind * one() <= reach.signed() ==> at_most(held, cold)
            &&& behind * one() >= reach.signed() ==> at_most(cold, held)
        }),
{
    let config = policy.config;
    let candidates = policy.candidates(workers, info);
    if k > 64 {
        lemma2_to64();
        lemma_pow2_strictly_increases(64, k);
    }
    let t1 = policy.tokens_at(workers, holder);
    let t2 = policy.tokens_at(workers, other);
    let b1 = lemma_exact_chunks(config, t1, k);
    let b2 = lemma_exact_chunks(config, t2, k);
    lemma_idle_pressure(config, candidates[holder]);
    lemma_idle_pressure(config, candidates[other]);
    let matched = tokens_of_chars(config, candidates[holder].matched_chars as nat) as int;
    lemma_tokens(config, candidates[holder].matched_chars as nat);
    let chunks = lemma_exact_chunks(config, matched, k);
    let weight = config.prefix_affinity_credit@;
    lemma_terms(policy, workers, info, holder);
    let credit = policy.credit(info, candidates[holder]);
    assert(credit == product(weight, Number::Finite { negative: false, quanta: chunks }));
    lemma_running(matched);
    lemma_product_within(weight, of_integer(matched), 1202, 1270);
    lemma_credit_scales(weight, matched, chunks, k);
    let reach = product(weight, of_integer(matched));
    let c = credit.signed();
    let gap = b1 - b2;
    lemma_pow2_pos(k);
    assert((t1 - t2) * one() == gap * pow2(k)) by (nonlinear_arith)
        requires
            b1 * pow2(k) == t1 * one(),
            b2 * pow2(k) == t2 * one(),
            gap == b1 - b2,
    ;
    assert((gap * pow2(k) <= c * pow2(k)) == (gap <= c)) by (nonlinear_arith)
        requires
            pow2(k) > 0,
    ;
    assert((gap * pow2(k) >= c * pow2(k)) == (gap >= c)) by (nonlinear_arith)
        requires
            pow2(k) > 0,
    ;
    law_credit_outweighs_a_gap_of_its_size(policy, workers, info, holder, other);
}

/// A match below the minimum match rate earns nothing.
pub proof fn law_weak_matches_earn_nothing(
    policy: PolicyModel,
    info: SelectWorkerInfo,
    candidate: CandidateModel,
    spilling: bool,
)
    requires
        candidate.matched_chars < policy.min_match_chars(info),
    ensures
        policy.score(info, candidate, spilling) == policy.score(
            info,
            CandidateModel { matched_chars: 0, ..candidate },
            spilling,
        ),
{
}

/// A counter that moved backwards drops the stale rate.
pub proof fn law_restarts_drop_the_rate(
    state: PrefillModel,
    report: PrefillLoadReport,
    tokens: i64,
    busy_us: i64,
    prev_tokens: i64,
    prev_busy: i64,
)
    requires
        state.prev_total_tokens == Some(prev_tokens),
        state.prev_busy_us == Some(prev_busy),
        report.total_prefill_uncached_tokens == Some(tokens),
        report.total_prefill_busy_us == Some(busy_us),
        tokens < prev_tokens || busy_us < prev_busy,
    ensures
        state.observed(report).rate is None,
        state.observed(report).prev_total_tokens == Some(tokens),
        state.observed(report).prev_busy_us == Some(busy_us),
{
}

/// A worker whose report lacks the counters is in proxy mode: it has no rate,
/// whatever was measured before, and is charged its tokens over the chunk size.
/// Nothing else of its state changes.
pub proof fn law_workers_without_counters_use_the_proxy(
    config: ChunkAwareConfig,
    state: PrefillModel,
    report: PrefillLoadReport,
    tokens: int,
    median: Option<Number>,
)
    requires
        report.total_prefill_uncached_tokens is None || report.total_prefill_busy_us is None,
    ensures
        state.observed(report) == (PrefillModel { report, rate: None, ..state }),
        chunks_of_tokens(config, tokens, state.observed(report).rate, median) == chunks_of_tokens(
            config,
            tokens,
            None,
            None,
        ),
{
}

/// The pools cannot evict each other's tenants: workers share a tree only where
/// they share pool and model.
pub proof fn law_trees_separate_pools(a: Worker, b: Worker)
    requires
        tree_key(a) == tree_key(b),
    ensures
        a.worker_type == b.worker_type,
        model_key(a.model_id@) == model_key(b.model_id@),
{
    reveal_strlit("regular");
    reveal_strlit("prefill");
    reveal_strlit("decode");
    reveal_strlit("::");
    let key = tree_key(a);
    let p = pool_name(a.worker_type);
    let q = pool_name(b.worker_type);
    assert(key[0] == p[0]);
    assert(key[0] == q[0]);
    assert(a.worker_type == b.worker_type);
    let m = model_key(a.model_id@);
    let n = model_key(b.model_id@);
    assert(key.len() == p.len() + 2 + m.len());
    assert(tree_key(b).len() == q.len() + 2 + n.len());
    assert forall|i: int| 0 <= i < m.len() implies m[i] == n[i] by {
        assert(key[i + p.len() + 2] == m[i]);
        assert(key[i + q.len() + 2] == n[i]);
    }
    assert(m =~= n);
}

/// Removing a worker forgets its prefill state and no other.
pub proof fn law_removal_forgets_one_worker(policy: PolicyModel, url: Seq<char>, other: Seq<char>)
    ensures
        state_of(policy.without(url).states, url) == PrefillModel::fresh(),
        other != url ==> state_of(policy.without(url).states, other) == state_of(
            policy.states,
            other,
        ),
{
}

/// A poll touches no worker but those that reported.
pub proof fn law_polls_touch_reported_workers_only(
    policy: PolicyModel,
    workers: Seq<Worker>,
    reports: Map<Seq<char>, PrefillLoadReport>,
    url: Seq<char>,
)
    requires
        !reports.contains_key(url),
    ensures
        state_of(policy.polled(workers, reports).states, url) == state_of(policy.states, url),
{
}

/// Every reply to a cache flush counts once, as a success or as a failure.
pub proof fn law_every_reply_counts_once<B>(replies: Seq<WorkerReply<B>>)
    ensures
        successes(replies).len() + failures(replies).len() == replies.len(),
    decreases replies.len(),
{
    if replies.len() > 0 {
        law_every_reply_counts_once(replies.drop_last());
    }
}

/// The sum of two sums, where a sum may be missing.
pub open spec fn combined(a: Option<int>, b: Option<int>) -> Option<int> {
    match (a, b) {
        (Some(x), Some(y)) => Some(x + y),
        (None, _) => b,
        (_, None) => a,
    }
}

/// The ranks of a worker add up, in whatever groups they are taken.
pub proof fn law_ranks_add_up(some: Seq<Option<i64>>, rest: Seq<Option<i64>>)
    ensures
        total_of(some + rest) == combined(total_of(some), total_of(rest)),
        total_of(some + rest) == total_of(rest + some),
{
    lemma_totals_combine(some, rest);
    lemma_totals_combine(rest, some);
}

proof fn lemma_totals_combine(some: Seq<Option<i64>>, rest: Seq<Option<i64>>)
    ensures
        total_of(some + rest) == combined(total_of(some), total_of(rest)),
    decreases rest.len(),
{
    if rest.len() == 0 {
        assert(some + rest =~= some);
    } else {
        lemma_totals_combine(some, rest.drop_last());
        assert((some + rest).drop_last() =~= some + rest.drop_last());
    }
}

/// A worker with one rank is comparable to a plain one: listing its entry under
/// `loads` changes nothing.
pub proof fn law_one_rank_reads_as_a_plain_worker(document: JsonTree, entry: JsonTree)
    requires
        document.member("loads"@) == Some(JsonTree::Array(seq![entry])),
        !(entry.member("loads"@) matches Some(JsonTree::Array(_))),
    ensures
        load_entries(document) == load_entries(entry),
{
    assert(load_entries(document) =~= load_entries(entry));
}

} // verus!
