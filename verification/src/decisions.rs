//! What the policy decides, stated of the workers, the reports and the request
//! that it is given.
use crate::chunk_aware::{
    backlog_tokens, highest_backlog, lowest_backlog, reservation_of, running_requests,
    tokens_of_chars, CandidateModel, PolicyModel,
};
use crate::laws::{
    law_backlogs_are_finite, lemma_healthy_count, lemma_tokens, lemma_winner_in_range,
};
use crate::number::{at_most, difference, less, negated, of_integer, Number};
use crate::order::lemma_totals_ordered;
use crate::policy::{PrefillLoadReport, SelectWorkerInfo};
use crate::prefill::PrefillModel;
use crate::scoring::{lemma_tied, tied, ties, winner};
use crate::store::{is_median, median_of, no_faster, rate_of, rated, slower, state_of};
use crate::worker::{
    healthy_indices, lemma_healthy_indices, reservation_after, tree_key, Worker, WorkerType,
    UNKNOWN_MODEL_ID,
};
use vstd::prelude::*;

verus! {

/// The highest and the lowest backlog are backlogs of candidates, and bound all
/// of them.
proof fn lemma_extremes(candidates: Seq<CandidateModel>)
    requires
        candidates.len() > 0,
        forall|i: int|
            0 <= i < candidates.len() ==> (#[trigger] candidates[i]).backlog is Finite,
    ensures
        exists|i: int|
            0 <= i < candidates.len() && (#[trigger] candidates[i]).backlog == highest_backlog(
                candidates,
            ),
        exists|i: int|
            0 <= i < candidates.len() && (#[trigger] candidates[i]).backlog == lowest_backlog(
                candidates,
            ),
        forall|i: int|
            0 <= i < candidates.len() ==> lowest_backlog(candidates).signed() <= (
            #[trigger] candidates[i]).backlog.signed() <= highest_backlog(candidates).signed(),
    decreases candidates.len(),
{
    let front = candidates.drop_last();
    let n = candidates.len() - 1;
    assert(candidates[n].backlog is Finite);
    if front.len() > 0 {
        assert forall|i: int| 0 <= i < front.len() implies (#[trigger] front[i]).backlog is Finite by {
            assert(candidates[i].backlog is Finite);
        }
        lemma_extremes(front);
        let high = choose|i: int|
            0 <= i < front.len() && (#[trigger] front[i]).backlog == highest_backlog(front);
        let low = choose|i: int|
            0 <= i < front.len() && (#[trigger] front[i]).backlog == lowest_backlog(front);
        assert(candidates[high] == front[high]);
        assert(candidates[low] == front[low]);
        assert forall|i: int| 0 <= i < candidates.len() implies lowest_backlog(candidates).signed()
            <= (#[trigger] candidates[i]).backlog.signed() <= highest_backlog(
            candidates,
        ).signed() by {
            if i < n {
                assert(front[i] == candidates[i]);
            }
        }
    } else {
        assert(front =~= Seq::empty());
        assert(candidates[0].backlog == candidates.last().backlog);
    }
}

/// Bounded spillover: affinity is off exactly where the backlogs of some two
/// candidates are further apart than the bound. However high the backlogs are,
/// where all lie within the bound of each other it stays on.
pub proof fn law_spillover_needs_two_backlogs_too_far_apart(
    policy: PolicyModel,
    candidates: Seq<CandidateModel>,
)
    requires
        forall|i: int|
            0 <= i < candidates.len() ==> (#[trigger] candidates[i]).backlog is Finite,
    ensures
        policy.spilling(candidates) <==> exists|i: int, j: int|
            0 <= i < candidates.len() && 0 <= j < candidates.len() && less(
                policy.config.spillover_bound_chunks@,
                difference((#[trigger] candidates[i]).backlog, (#[trigger] candidates[j]).backlog),
            ),
{
    let bound = policy.config.spillover_bound_chunks@;
    if candidates.len() > 0 {
        lemma_extremes(candidates);
        let high = choose|i: int|
            0 <= i < candidates.len() && (#[trigger] candidates[i]).backlog == highest_backlog(
                candidates,
            );
        let low = choose|i: int|
            0 <= i < candidates.len() && (#[trigger] candidates[i]).backlog == lowest_backlog(
                candidates,
            );
        let widest = difference(candidates[high].backlog, candidates[low].backlog);
        assert forall|i: int, j: int|
            0 <= i < candidates.len() && 0 <= j < candidates.len() && less(
                bound,
                difference((#[trigger] candidates[i]).backlog, (#[trigger] candidates[j]).backlog),
            ) implies less(bound, widest) by {
            lemma_differences_ordered(
                candidates[i].backlog,
                candidates[j].backlog,
                candidates[high].backlog,
                candidates[low].backlog,
            );
        }
    }
}

/// The wider two numbers are apart, the greater their difference.
proof fn lemma_differences_ordered(a: Number, b: Number, c: Number, d: Number)
    requires
        a is Finite,
        b is Finite,
        c is Finite,
        d is Finite,
        a.signed() <= c.signed(),
        d.signed() <= b.signed(),
    ensures
        at_most(difference(a, b), difference(c, d)),
{
    lemma_totals_ordered(
        a.signed() + negated(b).signed(),
        a.is_negative() && negated(b).is_negative(),
        c.signed() + negated(d).signed(),
        c.is_negative() && negated(d).is_negative(),
    );
}

/// Bounded spillover among the available workers of a sound policy: their backlogs
/// are finite, and affinity is off exactly where two of them are too far apart.
pub proof fn law_spillover_among_workers(
    policy: PolicyModel,
    workers: Seq<Worker>,
    info: SelectWorkerInfo,
)
    requires
        policy.is_sound(),
    ensures
        ({
            let candidates = policy.candidates(workers, info);
            policy.spilling(candidates) <==> exists|i: int, j: int|
                0 <= i < candidates.len() && 0 <= j < candidates.len() && less(
                    policy.config.spillover_bound_chunks@,
                    difference(
                        (#[trigger] candidates[i]).backlog,
                        (#[trigger] candidates[j]).backlog,
                    ),
                )
        }),
{
    let candidates = policy.candidates(workers, info);
    assert forall|i: int| 0 <= i < candidates.len() implies (
    #[trigger] candidates[i]).backlog is Finite by {
        law_backlogs_are_finite(policy, workers, info, i);
    }
    law_spillover_needs_two_backlogs_too_far_apart(policy, candidates);
}

/// The running requests of a worker are the larger of the count that it reported
/// and the count that this router has in flight on it: no less than either, and
/// one of them.
pub proof fn law_running_requests_are_the_larger_count(
    policy: PolicyModel,
    workers: Seq<Worker>,
    index: usize,
    matched_chars: usize,
    est_tokens: int,
) -> (running: int)
    ensures
        ({
            let worker = workers[index as int];
            let reported = state_of(policy.states, worker.url@).report.running_reqs;
            &&& policy.candidate(workers, index, matched_chars, est_tokens).running == of_integer(
                running,
            )
            &&& running >= reported
            &&& running >= worker.load
            &&& running == reported || running == worker.load
        }),
{
    let worker = workers[index as int];
    running_requests(state_of(policy.states, worker.url@), worker)
}

/// The first worker with a URL is the one whose counter is read.
proof fn lemma_reservation_of(workers: Seq<Worker>, i: int)
    requires
        0 <= i < workers.len(),
        forall|j: int| 0 <= j < i ==> (#[trigger] workers[j]).url@ != workers[i].url@,
    ensures
        reservation_of(workers, workers[i].url@) == workers[i].reserved_prefill_tokens,
    decreases i,
{
    if i > 0 {
        assert(workers[0].url@ != workers[i].url@);
        let rest = workers.drop_first();
        assert forall|j: int| 0 <= j < i - 1 implies (#[trigger] rest[j]).url@ != rest[i
            - 1].url@ by {
            assert(rest[j] == workers[j + 1]);
        }
        lemma_reservation_of(rest, i - 1);
    }
}

proof fn lemma_no_reservation(workers: Seq<Worker>, url: Seq<char>)
    requires
        forall|j: int| 0 <= j < workers.len() ==> (#[trigger] workers[j]).url@ != url,
    ensures
        reservation_of(workers, url) == 0,
    decreases workers.len(),
{
    if workers.len() > 0 {
        assert(workers[0].url@ != url);
        let rest = workers.drop_first();
        assert forall|j: int| 0 <= j < rest.len() implies (#[trigger] rest[j]).url@ != url by {
            assert(rest[j] == workers[j + 1]);
        }
        lemma_no_reservation(rest, url);
    }
}

/// A poll re-anchors every reported worker on its own reservation counter, so
/// that its backlog is what it reported, and what is reserved on it later adds on
/// top. Where a URL is listed twice, its first worker counts.
pub proof fn law_a_poll_anchors_each_worker_on_its_own_counter(
    policy: PolicyModel,
    workers: Seq<Worker>,
    reports: Map<Seq<char>, PrefillLoadReport>,
    i: int,
    reserved: i64,
)
    requires
        0 <= i < workers.len(),
        forall|j: int| 0 <= j < i ==> (#[trigger] workers[j]).url@ != workers[i].url@,
        reports.contains_key(workers[i].url@),
        reserved >= workers[i].reserved_prefill_tokens,
    ensures
        ({
            let state = state_of(policy.polled(workers, reports).states, workers[i].url@);
            let report = reports[workers[i].url@];
            let later = Worker { reserved_prefill_tokens: reserved, ..workers[i] };
            &&& state.report == report
            &&& state.reservation_baseline == workers[i].reserved_prefill_tokens
            &&& backlog_tokens(state, workers[i]) == report.waiting_uncached_tokens
            &&& backlog_tokens(state, later) == report.waiting_uncached_tokens + (reserved
                - workers[i].reserved_prefill_tokens)
        }),
{
    lemma_reservation_of(workers, i);
}

/// A reported worker that is not listed is anchored on zero.
pub proof fn law_a_poll_anchors_unlisted_workers_on_zero(
    policy: PolicyModel,
    workers: Seq<Worker>,
    reports: Map<Seq<char>, PrefillLoadReport>,
    url: Seq<char>,
)
    requires
        reports.contains_key(url),
        forall|j: int| 0 <= j < workers.len() ==> (#[trigger] workers[j]).url@ != url,
    ensures
        state_of(policy.polled(workers, reports).states, url).reservation_baseline == 0,
        state_of(policy.polled(workers, reports).states, url).report == reports[url],
{
    lemma_no_reservation(workers, url);
}

/// A poll folds each report into the state that was kept for its worker, or into a
/// fresh one, as `observe` does. It changes neither the configuration nor the turn,
/// and keeps a state for exactly the workers that have reported so far.
pub proof fn law_a_poll_folds_in_the_reports(
    policy: PolicyModel,
    workers: Seq<Worker>,
    reports: Map<Seq<char>, PrefillLoadReport>,
    url: Seq<char>,
)
    ensures
        ({
            let after = policy.polled(workers, reports);
            &&& after.config == policy.config
            &&& after.turn == policy.turn
            &&& after.states.contains_key(url) <==> policy.states.contains_key(url)
                || reports.contains_key(url)
            &&& reports.contains_key(url) && policy.states.contains_key(url)
                ==> after.states[url].rate == policy.states[url].observed(reports[url]).rate
                && after.states[url].prev_total_tokens == policy.states[url].observed(
                reports[url],
            ).prev_total_tokens && after.states[url].prev_busy_us == policy.states[url].observed(
                reports[url],
            ).prev_busy_us
            &&& reports.contains_key(url) && !policy.states.contains_key(url) ==> {
                let report = reports[url];
                let counted = report.total_prefill_uncached_tokens is Some
                    && report.total_prefill_busy_us is Some;
                &&& after.states[url].rate is None
                &&& after.states[url].prev_total_tokens == (if counted {
                    report.total_prefill_uncached_tokens
                } else {
                    None
                })
                &&& after.states[url].prev_busy_us == (if counted {
                    report.total_prefill_busy_us
                } else {
                    None
                })
            }
        }),
{
}

/// The candidates are the workers that are healthy and whose circuit breaker lets
/// requests through: each once, in ascending order. A selection is made exactly
/// where there is one, and picks one of them.
pub proof fn law_candidates_are_the_available_workers(
    policy: PolicyModel,
    workers: Seq<Worker>,
    info: SelectWorkerInfo,
)
    requires
        workers.len() <= usize::MAX,
    ensures
        ({
            let candidates = policy.candidates(workers, info);
            &&& forall|k: int|
                0 <= k < candidates.len() ==> {
                    let index = (#[trigger] candidates[k]).index as int;
                    index < workers.len() && workers[index].healthy && workers[index].can_execute
                }
            &&& forall|w: int|
                0 <= w < workers.len() && (#[trigger] workers[w]).healthy && workers[w].can_execute
                    ==> exists|k: int|
                    0 <= k < candidates.len() && (#[trigger] candidates[k]).index == w
            &&& forall|j: int, k: int|
                0 <= j < k < candidates.len() ==> (#[trigger] candidates[j]).index < (
                #[trigger] candidates[k]).index
            &&& policy.selection(workers, info) is Some <==> exists|w: int|
                0 <= w < workers.len() && (#[trigger] workers[w]).healthy && workers[w].can_execute
            &&& policy.selection(workers, info) matches Some(selection) ==> exists|k: int|
                0 <= k < candidates.len() && (#[trigger] candidates[k]).index == selection.index
        }),
{
    let candidates = policy.candidates(workers, info);
    let indices = healthy_indices(workers);
    lemma_healthy_indices(workers);
    lemma_healthy_count(workers);
    assert forall|k: int| 0 <= k < candidates.len() implies {
        let index = (#[trigger] candidates[k]).index as int;
        index < workers.len() && workers[index].healthy && workers[index].can_execute
    } by {
        assert(candidates[k].index == indices[k]);
    }
    assert forall|w: int|
        0 <= w < workers.len() && (#[trigger] workers[w]).healthy && workers[w].can_execute implies
        exists|k: int| 0 <= k < candidates.len() && (#[trigger] candidates[k]).index == w by {
        assert(workers[w].available());
        let k = choose|k: int| 0 <= k < indices.len() && indices[k] == w as usize;
        assert(candidates[k].index == w);
    }
    assert forall|j: int, k: int| 0 <= j < k < candidates.len() implies (
    #[trigger] candidates[j]).index < (#[trigger] candidates[k]).index by {
        assert(indices[j] < indices[k]);
    }
    if candidates.len() > 0 {
        lemma_winner_in_range(policy.scores(info, candidates), policy.turn);
        let at = winner(policy.scores(info, candidates), policy.turn) as int;
        assert(candidates[at].index == policy.selection(workers, info)->0.index);
        let index = candidates[0].index as int;
        assert(workers[index].healthy);
    }
}

/// What a candidate holds of the request is what the prefix tree says of its
/// worker; without a tree, or without a text, it holds nothing. What the request
/// would add to it is the rest: held and added tokens make up the estimate, unless
/// more is held than the request has.
pub proof fn law_candidates_hold_what_the_tree_says(
    policy: PolicyModel,
    workers: Seq<Worker>,
    info: SelectWorkerInfo,
    place: int,
)
    requires
        0 <= place < policy.candidates(workers, info).len(),
    ensures
        ({
            let candidate = policy.candidates(workers, info)[place];
            let index = candidate.index as int;
            let whole = match info.request_text {
                Some(text) => tokens_of_chars(policy.config, text@.len()) as int,
                None => tokens_of_chars(policy.config, 0) as int,
            };
            let held = tokens_of_chars(policy.config, candidate.matched_chars as nat) as int;
            &&& (match (info.request_text, info.prefix_matches) {
                (Some(text), Some(matches)) => if text@.len() > 0 && index < matches@.len() {
                    candidate.matched_chars == matches@[index]
                } else {
                    candidate.matched_chars == 0
                },
                _ => candidate.matched_chars == 0,
            })
            &&& held <= whole ==> candidate.new_tokens + held == whole
            &&& held > whole ==> candidate.new_tokens == 0
        }),
{
}

/// The selected worker is charged what the request adds to it.
pub proof fn law_the_selection_reserves_what_it_adds(
    policy: PolicyModel,
    workers: Seq<Worker>,
    info: SelectWorkerInfo,
)
    requires
        workers.len() <= usize::MAX,
        info.text().len() <= usize::MAX,
    ensures
        policy.selection(workers, info) matches Some(selection) ==> {
            let candidates = policy.candidates(workers, info);
            exists|k: int|
                0 <= k < candidates.len() && (#[trigger] candidates[k]).index == selection.index
                    && candidates[k].new_tokens == selection.reserved_prefill_tokens
        },
{
    let candidates = policy.candidates(workers, info);
    if candidates.len() > 0 {
        lemma_healthy_count(workers);
        lemma_winner_in_range(policy.scores(info, candidates), policy.turn);
        let at = winner(policy.scores(info, candidates), policy.turn) as int;
        lemma_tokens(policy.config, info.text().len());
        lemma_tokens(policy.config, candidates[at].matched_chars as nat);
        assert(candidates[at].index == policy.selection(workers, info)->0.index);
    }
}

/// Placing a request changes nothing of the policy but whose turn it is, and that
/// by one, and only where two candidates or more tie for the lowest score.
pub proof fn law_placing_moves_the_turn_only(
    policy: PolicyModel,
    workers: Seq<Worker>,
    info: SelectWorkerInfo,
)
    requires
        workers.len() <= usize::MAX,
    ensures
        ({
            let after = policy.after_selection(workers, info);
            let scores = policy.scores(info, policy.candidates(workers, info));
            let tie = exists|i: int, j: int|
                i != j && #[trigger] ties(scores, i) && #[trigger] ties(scores, j);
            &&& after.config == policy.config
            &&& after.states == policy.states
            &&& after.median == policy.median
            &&& !tie ==> after.turn == policy.turn
            &&& tie && policy.turn < usize::MAX ==> after.turn == policy.turn + 1
            &&& tie && policy.turn == usize::MAX ==> after.turn == 0
        }),
{
    let candidates = policy.candidates(workers, info);
    let scores = policy.scores(info, candidates);
    lemma_healthy_count(workers);
    lemma_tied(scores);
    if tied(scores).len() >= 2 {
        let i = tied(scores)[0] as int;
        let j = tied(scores)[1] as int;
        assert(tied(scores)[0] < tied(scores)[1]);
        assert(ties(scores, i) && ties(scores, j));
    }
    if exists|i: int, j: int| i != j && #[trigger] ties(scores, i) && #[trigger] ties(scores, j) {
        let (i, j) = choose|i: int, j: int|
            i != j && #[trigger] ties(scores, i) && #[trigger] ties(scores, j);
        assert(tied(scores).contains(i as usize));
        assert(tied(scores).contains(j as usize));
        let a = choose|k: int| 0 <= k < tied(scores).len() && tied(scores)[k] == i as usize;
        let b = choose|k: int| 0 <= k < tied(scores).len() && tied(scores)[k] == j as usize;
        assert(a != b);
    }
}

/// A fresh policy keeps no state; removing a worker keeps all but its state.
pub proof fn law_fresh_and_reduced_policies(
    policy: PolicyModel,
    url: Seq<char>,
    other: Seq<char>,
)
    ensures
        !PolicyModel::fresh(policy.config).states.contains_key(url),
        PolicyModel::fresh(policy.config).median is None,
        PolicyModel::fresh(policy.config).turn == 0,
        PolicyModel::fresh(policy.config).config == policy.config,
        !policy.without(url).states.contains_key(url),
        other != url ==> (policy.without(url).states.contains_key(other)
            <==> policy.states.contains_key(other)),
        other != url && policy.states.contains_key(other) ==> policy.without(url).states[other]
            == policy.states[other],
        policy.without(url).config == policy.config,
        policy.without(url).median == policy.median,
        policy.without(url).turn == policy.turn,
{
}

/// A worker that was never polled is taken to have nothing queued and nothing
/// running, and has no rate.
pub proof fn law_unpolled_workers_count_as_idle(
    states: Map<Seq<char>, PrefillModel>,
    url: Seq<char>,
)
    ensures
        states.contains_key(url) ==> state_of(states, url) == states[url],
        !states.contains_key(url) ==> {
            let state = state_of(states, url);
            &&& state.report.waiting_uncached_tokens == 0
            &&& state.report.running_reqs == 0
            &&& state.reservation_baseline == 0
            &&& state.rate is None
            &&& state.prev_total_tokens is None
            &&& state.prev_busy_us is None
        },
{
}

/// The median is the middle one of the positive measured rates: it is one of them,
/// at most half of them are below it, and more than half are not above it. There is
/// none exactly where no rate is positive.
pub proof fn law_the_median_is_the_middle_rate(
    states: Map<Seq<char>, PrefillModel>,
    median: Number,
)
    requires
        is_median(states, median),
    ensures
        ({
            let zero = Number::Finite { negative: false, quanta: 0 };
            let measured = Set::new(
                |url: Seq<char>|
                    states.contains_key(url) && (states[url].rate matches Some(rate) && less(
                        zero,
                        rate,
                    )),
            );
            let below = Set::new(
                |url: Seq<char>|
                    measured.contains(url) && (states[url].rate matches Some(rate) && less(
                        rate,
                        median,
                    )),
            );
            let not_above = Set::new(
                |url: Seq<char>|
                    measured.contains(url) && (states[url].rate matches Some(rate) && at_most(
                        rate,
                        median,
                    )),
            );
            &&& measured.finite()
            &&& exists|url: Seq<char>| #[trigger]
                measured.contains(url) && states[url].rate == Some(median)
            &&& 2 * below.len() <= measured.len()
            &&& 2 * not_above.len() > measured.len()
        }),
{
    let zero = Number::Finite { negative: false, quanta: 0 };
    let measured = Set::new(
        |url: Seq<char>|
            states.contains_key(url) && (states[url].rate matches Some(rate) && less(zero, rate)),
    );
    let below = Set::new(
        |url: Seq<char>|
            measured.contains(url) && (states[url].rate matches Some(rate) && less(rate, median)),
    );
    let not_above = Set::new(
        |url: Seq<char>|
            measured.contains(url) && (states[url].rate matches Some(rate) && at_most(
                rate,
                median,
            )),
    );
    assert(measured =~= rated(states));
    assert(below =~= slower(states, median));
    assert(not_above =~= no_faster(states, median));
    let url = choose|url: Seq<char>| #[trigger]
        rated(states).contains(url) && rate_of(states, url) == median;
    assert(measured.contains(url));
}

/// There is a median exactly where some worker has a positive measured rate.
pub proof fn law_a_median_needs_a_positive_rate(states: Map<Seq<char>, PrefillModel>)
    ensures
        median_of(states) is Some <==> exists|url: Seq<char>| #[trigger]
            states.contains_key(url) && (states[url].rate matches Some(rate) && less(
                Number::Finite { negative: false, quanta: 0 },
                rate,
            )),
{
    if exists|url: Seq<char>| #[trigger]
        states.contains_key(url) && (states[url].rate matches Some(rate) && less(
            Number::Finite { negative: false, quanta: 0 },
            rate,
        )) {
        let url = choose|url: Seq<char>| #[trigger]
            states.contains_key(url) && (states[url].rate matches Some(rate) && less(
                Number::Finite { negative: false, quanta: 0 },
                rate,
            ));
        assert(rated(states).contains(url));
    } else {
        assert(rated(states) =~= Set::empty());
    }
}

/// Reservations add up exactly within the range of the counter, stop at its top,
/// and never go below zero.
pub proof fn law_reservations_add_up(reserved: i64, delta: i64)
    ensures
        0 <= reserved + delta <= i64::MAX ==> reservation_after(reserved, delta) == reserved
            + delta,
        reserved + delta < 0 ==> reservation_after(reserved, delta) == 0,
        reserved + delta > i64::MAX ==> reservation_after(reserved, delta) == i64::MAX,
{
}

/// Workers of one pool and one model share a tree; a worker that names no model
/// shares that of the unknown one.
pub proof fn law_pool_and_model_decide_the_tree(a: Worker, b: Worker)
    requires
        a.worker_type == b.worker_type,
        a.model_id@ == b.model_id@ || (a.model_id@.len() == 0 && b.model_id@ == UNKNOWN_MODEL_ID@),
    ensures
        tree_key(a) == tree_key(b),
{
    reveal_strlit("unknown");
}

/// A tree is named by the pool and the model of its workers, with two colons in
/// between; a worker that names no model belongs to the model `unknown`.
pub proof fn law_trees_are_named_by_pool_and_model(worker: Worker)
    ensures
        ({
            let model = if worker.model_id@.len() > 0 {
                worker.model_id@
            } else {
                "unknown"@
            };
            match worker.worker_type {
                WorkerType::Regular => tree_key(worker) == "regular"@ + "::"@ + model,
                WorkerType::Prefill => tree_key(worker) == "prefill"@ + "::"@ + model,
                WorkerType::Decode => tree_key(worker) == "decode"@ + "::"@ + model,
            }
        }),
{
}

} // verus!
