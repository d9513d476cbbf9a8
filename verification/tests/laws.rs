use chunk_router::binary64::Binary64;
use chunk_router::chunk_aware::{Candidate, ChunkAwarePolicy};
use chunk_router::keyed::KeyedList;
use chunk_router::loads::{sum_entries, LoadEntry};
use chunk_router::policy::{
    ChunkAwareConfig, LoadBalancingPolicy, PrefillLoadReport, SelectWorkerInfo,
};
use chunk_router::prefill::PrefillState;
use chunk_router::worker::Worker;

fn double(x: f64) -> Binary64 {
    Binary64::from_bits(x.to_bits())
}

fn number(x: Binary64) -> f64 {
    f64::from_bits(x.to_bits())
}

fn fleet(count: usize) -> Vec<Worker> {
    (0..count).map(|i| Worker::new(&format!("http://w{}", i))).collect()
}

fn sampled(waiting: i64, tokens: i64, busy_us: i64) -> PrefillLoadReport {
    PrefillLoadReport {
        waiting_uncached_tokens: waiting,
        running_reqs: 0,
        total_prefill_uncached_tokens: Some(tokens),
        total_prefill_busy_us: Some(busy_us),
    }
}

fn queued(waiting: i64) -> PrefillLoadReport {
    PrefillLoadReport { waiting_uncached_tokens: waiting, ..Default::default() }
}

fn poll(policy: &mut ChunkAwarePolicy, workers: &[Worker], reports: &[PrefillLoadReport]) {
    let mut by_worker = KeyedList::new();
    for (worker, report) in workers.iter().zip(reports) {
        by_worker.insert(worker.url.clone(), *report);
    }
    policy.update_prefill_loads(workers, &by_worker);
}

fn asks<'a>(text: &'a str, matches: &'a [usize]) -> SelectWorkerInfo<'a> {
    SelectWorkerInfo { request_text: Some(text), tokens: None, prefix_matches: Some(matches) }
}

fn backlogs(policy: &ChunkAwarePolicy, workers: &[Worker]) -> Vec<f64> {
    let indices = (0..workers.len()).collect();
    policy
        .build_candidates(workers, &indices, &SelectWorkerInfo::default(), 0)
        .iter()
        .map(|candidate| number(candidate.backlog_chunks))
        .collect()
}

#[test]
fn spilling_requests_go_to_the_least_backlogged_whoever_holds_them() {
    let workers = fleet(3);
    let mut policy = ChunkAwarePolicy::new();
    poll(&mut policy, &workers, &[queued(9 * 8192), queued(2 * 8192), queued(8192)]);
    let text = "x".repeat(40_000);
    for matches in [[0, 0, 0], [40_000, 0, 0], [0, 40_000, 0], [40_000, 40_000, 0]] {
        assert_eq!(policy.select_worker(&workers, &asks(&text, &matches)), Some(2));
    }
}

#[test]
fn short_requests_go_by_load_whoever_holds_them() {
    let workers = fleet(2);
    let mut policy = ChunkAwarePolicy::new();
    poll(&mut policy, &workers, &[queued(1), queued(0)]);
    // One token short of a long prefill, and just long enough.
    let short = "x".repeat(4 * 8191);
    let long = "x".repeat(4 * 8192);
    assert_eq!(policy.select_worker(&workers, &asks(&short, &[4 * 8191, 0])), Some(1));
    assert_eq!(policy.select_worker(&workers, &asks(&long, &[4 * 8192, 0])), Some(0));
}

#[test]
fn an_unreachable_threshold_turns_affinity_off() {
    let workers = fleet(2);
    let text = "x".repeat(40_000);
    for threshold in [usize::MAX, usize::MAX / 2 + 1, 10_001] {
        let mut policy = ChunkAwarePolicy::with_config(ChunkAwareConfig {
            long_prefill_threshold_tokens: threshold,
            ..Default::default()
        });
        poll(&mut policy, &workers, &[queued(0), queued(1)]);
        assert_eq!(policy.select_worker(&workers, &asks(&text, &[0, 0])), Some(0));
        assert_eq!(policy.select_worker(&workers, &asks(&text, &[0, 40_000])), Some(0));
    }
    let mut policy = ChunkAwarePolicy::with_config(ChunkAwareConfig {
        long_prefill_threshold_tokens: 10_000,
        ..Default::default()
    });
    poll(&mut policy, &workers, &[queued(0), queued(1)]);
    assert_eq!(policy.select_worker(&workers, &asks(&text, &[0, 40_000])), Some(1));
}

#[test]
fn the_chosen_worker_is_the_lowest_up_to_the_tolerance() {
    // Loads 2, 0 and 3 with one common credit give three scores near each other
    // at a size where the next number is beyond the tolerance.
    let mut workers = fleet(3);
    workers[0].load = 2;
    workers[2].load = 3;
    let mut policy = ChunkAwarePolicy::with_config(ChunkAwareConfig {
        load_weight: double(2f64.powi(-30)),
        prefix_affinity_credit: double(2f64.powi(23)),
        chunk_size_tokens: 1,
        long_prefill_threshold_tokens: 0,
        ..Default::default()
    });
    for _ in 0..4 {
        assert_eq!(policy.select_worker(&workers, &asks("xxxx", &[4, 4, 4])), Some(1));
    }
}

#[test]
fn a_reservation_below_the_baseline_takes_nothing_off() {
    let mut workers = fleet(1);
    workers[0].reserved_prefill_tokens = 8192;
    let mut policy = ChunkAwarePolicy::new();
    poll(&mut policy, &workers, &[queued(16_384)]);
    workers[0].reserved_prefill_tokens = 0;
    assert_eq!(backlogs(&policy, &workers), vec![2.0]);
    workers[0].reserved_prefill_tokens = 12_288;
    assert_eq!(backlogs(&policy, &workers), vec![2.5]);
    // A negative estimate leaves nothing to reserve.
    let rest = |tokens: i64| {
        let candidates =
            policy.build_candidates(&workers, &vec![0], &SelectWorkerInfo::default(), tokens);
        candidates[0].new_tokens
    };
    assert_eq!(rest(i64::MIN), 0);
    assert_eq!(rest(i64::MAX), i64::MAX);
}

#[test]
fn without_credit_holding_a_prefix_changes_nothing() {
    let workers = fleet(2);
    let mut policy = ChunkAwarePolicy::with_config(ChunkAwareConfig {
        prefix_affinity_credit: double(0.0),
        ..Default::default()
    });
    poll(&mut policy, &workers, &[queued(8192), queued(8191)]);
    let text = "x".repeat(40_000);
    for matches in [[0, 0], [40_000, 0], [0, 40_000]] {
        assert_eq!(policy.select_worker(&workers, &asks(&text, &matches)), Some(1));
    }
}

#[test]
fn reservations_shrink_as_the_match_grows() {
    let workers = fleet(1);
    let mut policy = ChunkAwarePolicy::new();
    let text = "x".repeat(40_000);
    let mut last = i64::MAX;
    for matched in [0, 1, 4, 20_000, 39_999, 40_000] {
        let selection = policy.select_worker_detailed(&workers, &asks(&text, &[matched])).unwrap();
        assert!(selection.reserved_prefill_tokens <= last);
        last = selection.reserved_prefill_tokens;
        if matched == 0 {
            assert_eq!(last, 10_000);
        }
    }
    assert_eq!(last, 0);
}

#[test]
fn a_homogeneous_fleet_is_charged_as_without_rates() {
    let workers = fleet(3);
    let waiting = [5000, 12_345, 777];
    let mut measured = ChunkAwarePolicy::new();
    poll(&mut measured, &workers, &waiting.map(|w| sampled(w, 0, 0)));
    poll(&mut measured, &workers, &waiting.map(|w| sampled(w, 70_000, 1_000_000)));
    let mut plain = ChunkAwarePolicy::new();
    poll(&mut plain, &workers, &waiting.map(queued));
    assert!(measured.prefill_state("http://w0").unwrap().rate_tokens_per_us.is_some());
    assert_eq!(backlogs(&measured, &workers), backlogs(&plain, &workers));
}

#[test]
fn half_the_rate_doubles_the_backlog() {
    let policy = ChunkAwarePolicy::new();
    let chunks = |tokens: i128, rate: f64| {
        number(policy.backlog_to_chunks(tokens, Some(double(rate)), Some(double(0.7))))
    };
    for tokens in [0, 1, 8191, 8192, 1_000_003] {
        let plain = number(policy.backlog_to_chunks(tokens, None, None));
        assert_eq!(chunks(tokens, 0.35), 2.0 * plain);
        assert!(chunks(tokens, 0.35) >= chunks(tokens, 0.36));
        assert!(chunks(tokens, 0.35) <= chunks(tokens + 1, 0.35));
    }
}

#[test]
fn workers_without_counters_are_charged_plainly() {
    let workers = fleet(2);
    let mut policy = ChunkAwarePolicy::new();
    poll(&mut policy, &workers, &[sampled(8192, 0, 0), queued(8192)]);
    poll(&mut policy, &workers, &[sampled(8192, 1_000_000, 1_000_000), queued(8192)]);
    assert!(policy.prefill_state("http://w1").unwrap().rate_tokens_per_us.is_none());
    assert_eq!(backlogs(&policy, &workers), vec![1.0, 1.0]);
    // A worker that stops sending them loses its rate.
    poll(&mut policy, &workers[..1], &[queued(8192)]);
    assert!(policy.prefill_state("http://w0").unwrap().rate_tokens_per_us.is_none());
    assert_eq!(backlogs(&policy, &workers), vec![1.0, 1.0]);
}

#[test]
fn weak_matches_earn_nothing_and_strong_ones_lower_the_score() {
    let policy = ChunkAwarePolicy::new();
    let text = "x".repeat(40_000);
    let score = |matched: usize| {
        let candidate = Candidate {
            index: 0,
            backlog_chunks: double(2.0),
            matched_chars: matched,
            new_tokens: 0,
            running: double(1.0),
        };
        number(policy.score_candidates(&asks(&text, &[matched]), &vec![candidate])[0])
    };
    assert_eq!(score(0), 3.5);
    assert_eq!((40_000f32 * 0.3f32).ceil(), 12_000.0);
    assert_eq!(score(11_999), 3.5);
    assert_eq!(score(12_000), 3.5 - f64::from(0.2f32) * (3000.0 / 8192.0));
    assert_eq!(score(40_000), 3.5 - f64::from(0.2f32) * (10_000.0 / 8192.0));
}

#[test]
fn rates_stay_positive_and_finite() {
    let mut state = PrefillState::default();
    for (tokens, busy_us) in [
        (i64::MIN, i64::MIN),
        (i64::MAX, i64::MIN + 1000),
        (i64::MIN, i64::MIN),
        (i64::MIN + 1, i64::MAX),
        (i64::MAX, i64::MAX),
        (0, 0),
        (1, i64::MAX),
    ] {
        state.observe(sampled(0, tokens, busy_us));
        if let Some(rate) = state.rate_tokens_per_us {
            assert!(number(rate) > 0.0 && number(rate).is_finite());
        }
    }
    assert_eq!(number(state.rate_tokens_per_us.unwrap()), 1.0 / i64::MAX as f64);
}

#[test]
fn pending_work_shows_between_polls() {
    let mut workers = fleet(2);
    let mut policy = ChunkAwarePolicy::new();
    poll(&mut policy, &workers, &[queued(0), queued(0)]);
    assert_eq!(backlogs(&policy, &workers), vec![0.0, 0.0]);
    workers[0].add_reserved_prefill_tokens(1);
    assert_eq!(backlogs(&policy, &workers), vec![1.0 / 8192.0, 0.0]);
    assert_eq!(policy.select_worker(&workers, &asks("x", &[0, 0])), Some(1));
}

#[test]
fn polls_and_removals_touch_their_worker_only() {
    let workers = fleet(3);
    let mut policy = ChunkAwarePolicy::new();
    poll(&mut policy, &workers, &[queued(8192), queued(16_384), queued(24_576)]);
    poll(&mut policy, &workers[..1], &[queued(0)]);
    assert_eq!(backlogs(&policy, &workers), vec![0.0, 2.0, 3.0]);
    policy.remove_worker_by_url("http://w1");
    assert_eq!(backlogs(&policy, &workers), vec![0.0, 0.0, 3.0]);
    assert!(policy.prefill_state("http://w1").is_none());
}

#[test]
fn ranks_add_up_in_any_order() {
    let rank = |waiting: Option<i64>, running: Option<i64>| LoadEntry {
        waiting_uncached_tokens: waiting,
        running_reqs: running,
        total_prefill_uncached_tokens: None,
        total_prefill_busy_us: None,
    };
    let a = rank(Some(3), None);
    let b = rank(Some(40), Some(2));
    let c = rank(None, Some(5));
    let expected = PrefillLoadReport {
        waiting_uncached_tokens: 43,
        running_reqs: 7,
        total_prefill_uncached_tokens: None,
        total_prefill_busy_us: None,
    };
    for ranks in [[a, b, c], [c, b, a], [b, a, c]] {
        assert_eq!(sum_entries(&ranks.to_vec()), Ok(Some(expected)));
    }
}

#[test]
fn one_rank_reads_as_a_plain_worker() {
    let plain = br#"{"num_waiting_uncached_tokens": 9, "num_running_reqs": 1}"#;
    let listed = br#"{"loads": [{"num_waiting_uncached_tokens": 9, "num_running_reqs": 1}]}"#;
    let read = chunk_router::loads::parse_prefill_load;
    assert_eq!(read(plain), read(listed));
    assert_eq!(read(plain).unwrap().unwrap().waiting_uncached_tokens, 9);
}
