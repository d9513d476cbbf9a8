use std::sync::{Arc, Mutex};

use chunk_router::binary64::Binary64;
use chunk_router::chunk_aware::{Candidate, ChunkAwarePolicy, EvictionSchedule, TreeAction};
use chunk_router::keyed::KeyedList;
use chunk_router::policy::{
    BucketConfig, CacheAwareConfig, ChunkAwareConfig, LoadBalancingPolicy, PrefillLoadReport,
    SelectWorkerInfo, WorkerSelection,
};
use chunk_router::prefill::PrefillState;
use chunk_router::scoring::pick;
use chunk_router::store::PrefillStore;
use chunk_router::worker::{
    get_healthy_worker_indices, normalize_model_key, pool_tag, tree_key_for_worker, Worker,
    WorkerType,
};

const W1: &str = "http://w1:8000";
const W2: &str = "http://w2:8000";

fn number(x: Binary64) -> f64 {
    f64::from_bits(x.to_bits())
}

fn single(x: f32) -> Binary64 {
    Binary64::from_bits((x as f64).to_bits())
}

fn workers(urls: &[&str]) -> Vec<Worker> {
    urls.iter().map(|url| Worker::new(url)).collect()
}

fn policy_with(config: ChunkAwareConfig) -> ChunkAwarePolicy {
    ChunkAwarePolicy::with_config(ChunkAwareConfig {
        eviction_interval_secs: 0,
        ..config
    })
}

fn report(waiting_uncached_tokens: i64, running_reqs: i64) -> PrefillLoadReport {
    PrefillLoadReport {
        waiting_uncached_tokens,
        running_reqs,
        total_prefill_uncached_tokens: None,
        total_prefill_busy_us: None,
    }
}

fn map_of(entries: &[(&str, PrefillLoadReport)]) -> KeyedList<PrefillLoadReport> {
    let mut map = KeyedList::new();
    for (url, r) in entries {
        map.insert((*url).to_string(), *r);
    }
    map
}

/// Deliver a load poll. `workers` is needed so the policy can re-baseline its
/// reservation accounting against the instant of the report.
fn set_loads_for(
    policy: &mut ChunkAwarePolicy,
    workers: &[Worker],
    entries: &[(&str, PrefillLoadReport)],
) {
    policy.update_prefill_loads(workers, &map_of(entries));
}

/// Convenience for tests with no outstanding reservations, where the baseline
/// is trivially 0.
fn set_loads(policy: &mut ChunkAwarePolicy, entries: &[(&str, PrefillLoadReport)]) {
    policy.update_prefill_loads(&[], &map_of(entries));
}

/// A request long enough to clear the default 8192-token gate
/// (chars_per_token 4.0 => 40k chars ~= 10k tokens).
fn long_text(seed: &str) -> String {
    seed.repeat(40_000 / seed.len().max(1))
}

/// The prefix trees: the texts recorded by tree key and worker.
#[derive(Default)]
struct Trees {
    texts: Vec<(String, String, String)>,
    keys: Vec<String>,
}

impl Trees {
    fn apply(&mut self, action: TreeAction, text: &str) {
        match action {
            TreeAction::Seed { key, url } => {
                if !self.keys.contains(&key) {
                    self.keys.push(key.clone());
                }
                self.texts.push((key, url, String::new()));
            }
            TreeAction::Record { key, url } => self.texts.push((key, url, text.to_string())),
            TreeAction::Forget { key, url } => {
                self.texts.retain(|(k, u, _)| *k != key || *u != url)
            }
            TreeAction::ForgetEverywhere { url } => self.texts.retain(|(_, u, _)| *u != url),
        }
    }

    fn matches(&self, key: &str, workers: &[Worker], text: &str) -> Option<Vec<usize>> {
        if !self.keys.iter().any(|k| k == key) {
            return None;
        }
        let count = |worker: &Worker| {
            self.texts
                .iter()
                .filter(|(k, u, _)| k == key && *u == worker.url)
                .map(|(_, _, t)| t.chars().zip(text.chars()).take_while(|(a, b)| a == b).count())
                .max()
                .unwrap_or(0)
        };
        Some(workers.iter().map(count).collect())
    }
}

/// A policy with the trees that a router keeps for it.
struct Router {
    policy: ChunkAwarePolicy,
    trees: Trees,
}

impl Router {
    fn new(config: ChunkAwareConfig, workers: &[Worker]) -> Router {
        let policy = policy_with(config);
        let mut trees = Trees::default();
        for action in policy.init_workers(workers) {
            trees.apply(action, "");
        }
        Router { policy, trees }
    }

    fn select_detailed(&mut self, workers: &[Worker], text: &str) -> Option<WorkerSelection> {
        let key = self.policy.request_tree_key(workers)?;
        let matches = self.trees.matches(&key, workers, text);
        let info = SelectWorkerInfo {
            request_text: Some(text),
            prefix_matches: matches.as_deref(),
            ..Default::default()
        };
        let dispatch = self.policy.place(workers, &info)?;
        if let Some(action) = dispatch.record {
            self.trees.apply(action, text);
        }
        Some(dispatch.selection)
    }

    fn select(&mut self, workers: &[Worker], text: &str) -> Option<usize> {
        self.select_detailed(workers, text).map(|s| s.index)
    }
}

#[test]
fn scores_on_backlog_when_no_affinity() {
    let workers = workers(&[W1, W2]);
    let mut router = Router::new(ChunkAwareConfig::default(), &workers);

    // w1 carries four chunks of queued prefill, w2 is idle.
    set_loads(&mut router.policy, &[(W1, report(4 * 8192, 0)), (W2, report(0, 0))]);

    let selected = router.select(&workers, "cold request").unwrap();
    assert_eq!(selected, 1, "should route to the idle worker");
}

#[test]
fn prefix_holder_wins_when_backlog_gap_is_small() {
    let workers = workers(&[W1, W2]);
    let mut router = Router::new(ChunkAwareConfig::default(), &workers);

    let text = long_text("shared-prefix-");

    // Seed the prefix onto w1 by routing it there once while w2 is loaded.
    set_loads(&mut router.policy, &[(W1, report(0, 0)), (W2, report(8192, 0))]);
    let first = router.select(&workers, &text).unwrap();
    assert_eq!(first, 0, "first request should land on the idle worker");

    // Now w1 is slightly behind, but by less than the credit is worth.
    set_loads(&mut router.policy, &[(W1, report(1000, 0)), (W2, report(0, 0))]);
    let second = router.select(&workers, &text).unwrap();
    assert_eq!(
        second, 0,
        "prefix holder should win a backlog deficit smaller than the credit's reach"
    );
}

#[test]
fn affinity_credit_reach_is_credit_times_match_tokens() {
    let workers = workers(&[W1, W2]);
    let mut router = Router::new(ChunkAwareConfig::default(), &workers);

    let text = long_text("shared-prefix-");
    let est_tokens = router.policy.chars_to_tokens(text.chars().count());
    let reach = (0.2 * est_tokens as f64) as i64;

    set_loads(&mut router.policy, &[(W1, report(0, 0)), (W2, report(8192, 0))]);
    assert_eq!(router.select(&workers, &text), Some(0));

    // Just inside the reach: affinity holds.
    set_loads(
        &mut router.policy,
        &[(W1, report(reach - reach / 10, 0)), (W2, report(0, 0))],
    );
    assert_eq!(
        router.select(&workers, &text),
        Some(0),
        "deficit just under the reach should keep the prefix holder"
    );

    // Just outside it: the lighter worker takes over.
    set_loads(
        &mut router.policy,
        &[(W1, report(reach + reach / 2, 0)), (W2, report(0, 0))],
    );
    assert_eq!(
        router.select(&workers, &text),
        Some(1),
        "deficit past the reach should spill to the lighter worker"
    );
}

#[test]
fn spillover_bound_overrides_affinity() {
    let workers = workers(&[W1, W2]);
    let mut router = Router::new(ChunkAwareConfig::default(), &workers);

    let text = long_text("shared-prefix-");

    set_loads(&mut router.policy, &[(W1, report(0, 0)), (W2, report(8192, 0))]);
    assert_eq!(router.select(&workers, &text), Some(0));

    // w1 now holds the prefix *and* a backlog far past the bound (4 chunks).
    set_loads(&mut router.policy, &[(W1, report(20 * 8192, 0)), (W2, report(0, 0))]);
    let selected = router.select(&workers, &text).unwrap();
    assert_eq!(
        selected, 1,
        "spillover must override affinity — this is the cache_aware failure mode"
    );
}

#[test]
fn short_requests_ignore_affinity() {
    let workers = workers(&[W1, W2]);
    let mut router = Router::new(ChunkAwareConfig::default(), &workers);

    // Short text: well under the 8192-token long-prefill gate.
    let text = "short shared prefix";

    set_loads(&mut router.policy, &[(W1, report(0, 0)), (W2, report(4096, 0))]);
    assert_eq!(router.select(&workers, text), Some(0));

    // w1 holds the prefix but is now (slightly) more loaded. With affinity
    // gated off, the lower backlog must win.
    set_loads(&mut router.policy, &[(W1, report(4096, 0)), (W2, report(0, 0))]);
    let selected = router.select(&workers, text).unwrap();
    assert_eq!(selected, 1, "short requests must route on load/backlog only");
}

#[test]
fn zero_credit_behaves_as_load_only() {
    let workers = workers(&[W1, W2]);
    let mut router = Router::new(
        ChunkAwareConfig {
            prefix_affinity_credit: single(0.0),
            ..ChunkAwareConfig::default()
        },
        &workers,
    );

    let text = long_text("shared-prefix-");

    set_loads(&mut router.policy, &[(W1, report(0, 0)), (W2, report(8192, 0))]);
    assert_eq!(router.select(&workers, &text), Some(0));

    // With the credit zeroed the prefix holder must lose to the lighter worker.
    set_loads(&mut router.policy, &[(W1, report(8192, 0)), (W2, report(0, 0))]);
    let selected = router.select(&workers, &text).unwrap();
    assert_eq!(selected, 1, "credit 0 => pure load/backlog routing");
}

#[test]
fn reserves_uncached_tokens_only() {
    let workers = workers(&[W1, W2]);
    let mut router = Router::new(ChunkAwareConfig::default(), &workers);

    let text = long_text("shared-prefix-");
    let est_tokens = router.policy.chars_to_tokens(text.chars().count());

    set_loads(&mut router.policy, &[(W1, report(0, 0)), (W2, report(8192, 0))]);
    let first = router.select_detailed(&workers, &text).unwrap();
    assert_eq!(first.index, 0);
    assert_eq!(
        first.reserved_prefill_tokens, est_tokens,
        "a cold request reserves its whole token count"
    );

    // Repeat of the same text on the worker that now holds it: the matched
    // prefix costs no prefill, so the reservation must collapse to ~0.
    set_loads(&mut router.policy, &[(W1, report(0, 0)), (W2, report(8192, 0))]);
    let second = router.select_detailed(&workers, &text).unwrap();
    assert_eq!(second.index, 0);
    assert!(
        second.reserved_prefill_tokens < est_tokens / 10,
        "cached repeat should reserve almost nothing, got {}",
        second.reserved_prefill_tokens
    );
}

#[test]
fn reservation_shifts_routing_between_polls() {
    let mut workers = workers(&[W1, W2]);
    let mut router = Router::new(ChunkAwareConfig::default(), &workers);

    // Both idle and identical as far as the last poll knows.
    set_loads(&mut router.policy, &[(W1, report(0, 0)), (W2, report(0, 0))]);

    // Dispatch a burst without any intervening poll, applying reservations.
    let mut counts = [0usize; 2];
    for i in 0..8 {
        let text = long_text(&format!("burst-{}-", i));
        let selection = router.select_detailed(&workers, &text).unwrap();
        counts[selection.index] += 1;
        workers[selection.index].add_reserved_prefill_tokens(selection.reserved_prefill_tokens);
    }

    assert_eq!(
        counts,
        [4, 4],
        "reservations must spread a burst that arrives inside one poll window"
    );
}

#[test]
fn measured_rate_penalizes_the_slower_worker() {
    let workers = workers(&[W1, W2]);
    let mut router = Router::new(ChunkAwareConfig::default(), &workers);

    // Two polls are needed before a rate can be differenced.
    let sample = |tokens: i64, busy_us: i64, waiting: i64| PrefillLoadReport {
        waiting_uncached_tokens: waiting,
        running_reqs: 0,
        total_prefill_uncached_tokens: Some(tokens),
        total_prefill_busy_us: Some(busy_us),
    };

    set_loads(&mut router.policy, &[(W1, sample(0, 0, 0)), (W2, sample(0, 0, 0))]);
    // w1 prefilled 1M tokens in 1s; w2 managed only 100k in the same second.
    set_loads(
        &mut router.policy,
        &[
            (W1, sample(1_000_000, 1_000_000, 2 * 8192)),
            (W2, sample(100_000, 1_000_000, 8192)),
        ],
    );

    // w2 reports the *smaller* token backlog, but is 10x slower, so the
    // time-to-drain favours w1.
    let selected = router.select(&workers, "cold request").unwrap();
    assert_eq!(selected, 0, "measured rate should outweigh raw token backlog");
}

#[test]
fn rate_baseline_resets_when_counters_go_backwards() {
    let workers = workers(&[W1]);
    let mut router = Router::new(ChunkAwareConfig::default(), &workers);

    let sample = |tokens: i64, busy_us: i64| PrefillLoadReport {
        waiting_uncached_tokens: 0,
        running_reqs: 0,
        total_prefill_uncached_tokens: Some(tokens),
        total_prefill_busy_us: Some(busy_us),
    };

    set_loads(&mut router.policy, &[(W1, sample(0, 0))]);
    set_loads(&mut router.policy, &[(W1, sample(1_000_000, 1_000_000))]);
    assert!(router.policy.prefill_state(W1).unwrap().rate_tokens_per_us.is_some());

    // Worker restarted: cumulative counters go backwards.
    set_loads(&mut router.policy, &[(W1, sample(10, 10))]);
    assert!(
        router.policy.prefill_state(W1).unwrap().rate_tokens_per_us.is_none(),
        "a counter reset must drop the stale rate rather than infer a wild one"
    );
}

#[test]
fn poll_rebaselines_reservations_instead_of_double_counting() {
    let mut workers = workers(&[W1, W2]);
    let mut router = Router::new(ChunkAwareConfig::default(), &workers);

    // A request is in flight on w1: 8192 uncached tokens reserved.
    workers[0].add_reserved_prefill_tokens(8192);

    // The poll now observes exactly that request sitting in w1's queue.
    set_loads_for(
        &mut router.policy,
        &workers,
        &[(W1, report(8192, 0)), (W2, report(0, 0))],
    );

    // w1's true backlog is 8192, i.e. 1.0 chunk — not 2.0.
    let info = SelectWorkerInfo::default();
    let candidates = router.policy.build_candidates(&workers, &vec![0, 1], &info, 0);
    assert!(
        (number(candidates[0].backlog_chunks) - 1.0).abs() < 1e-9,
        "expected 1.0 chunk after re-baselining, got {}",
        number(candidates[0].backlog_chunks)
    );

    // A *new* dispatch after the poll is unseen by it, so it does add on top.
    workers[0].add_reserved_prefill_tokens(8192);
    let candidates = router.policy.build_candidates(&workers, &vec![0, 1], &info, 0);
    assert!(
        (number(candidates[0].backlog_chunks) - 2.0).abs() < 1e-9,
        "a post-poll dispatch must still count, got {}",
        number(candidates[0].backlog_chunks)
    );
}

#[test]
fn skips_unhealthy_workers() {
    let mut workers = workers(&[W1, W2]);
    let mut router = Router::new(ChunkAwareConfig::default(), &workers);

    // w2 is idle but unhealthy; w1 is backlogged but up.
    set_loads(&mut router.policy, &[(W1, report(100 * 8192, 0)), (W2, report(0, 0))]);
    workers[1].healthy = false;

    assert_eq!(router.select(&workers, "x"), Some(0));

    workers[0].healthy = false;
    assert_eq!(
        router.select(&workers, "x"),
        None,
        "no healthy workers => no selection"
    );
}

#[test]
fn ties_rotate_between_equal_workers() {
    let workers = workers(&[W1, W2]);
    let mut router = Router::new(ChunkAwareConfig::default(), &workers);
    set_loads(&mut router.policy, &[(W1, report(0, 0)), (W2, report(0, 0))]);

    let mut counts = [0usize; 2];
    for _ in 0..10 {
        let idx = router.select(&workers, "tie").unwrap();
        counts[idx] += 1;
    }
    assert_eq!(counts, [5, 5], "equal scores must round-robin");
}

#[test]
fn concurrent_dispatch_does_not_panic_or_leak_reservations() {
    let initial = workers(&[W1, W2]);
    let mut router = Router::new(ChunkAwareConfig::default(), &initial);
    set_loads(&mut router.policy, &[(W1, report(0, 0)), (W2, report(0, 0))]);
    let router = Arc::new(Mutex::new(router));
    let workers = Arc::new(Mutex::new(initial));

    let runtime = tokio::runtime::Builder::new_multi_thread()
        .worker_threads(8)
        .build()
        .unwrap();
    runtime.block_on(async {
        let mut handles = Vec::new();
        for i in 0..64 {
            let router = Arc::clone(&router);
            let workers = Arc::clone(&workers);
            handles.push(tokio::spawn(async move {
                let text = long_text(&format!("c-{}-", i % 8));
                let selection = {
                    let workers = workers.lock().unwrap();
                    router.lock().unwrap().select_detailed(&workers, &text).unwrap()
                };
                // Reserve then release, as the load guard does.
                workers.lock().unwrap()[selection.index]
                    .add_reserved_prefill_tokens(selection.reserved_prefill_tokens);
                tokio::task::yield_now().await;
                workers.lock().unwrap()[selection.index]
                    .add_reserved_prefill_tokens(-selection.reserved_prefill_tokens);
            }));
        }
        for handle in handles {
            handle.await.expect("dispatch task panicked");
        }
    });

    for worker in workers.lock().unwrap().iter() {
        assert_eq!(
            worker.reserved_prefill_tokens, 0,
            "every reservation must be released"
        );
    }
}

#[test]
fn release_cannot_drive_reservation_negative() {
    let mut workers = workers(&[W1]);
    workers[0].add_reserved_prefill_tokens(100);
    workers[0].add_reserved_prefill_tokens(-500);
    assert_eq!(workers[0].reserved_prefill_tokens, 0);
}

#[test]
fn test_get_healthy_worker_indices() {
    let mut workers = workers(&["http://w1:8000", "http://w2:8000", "http://w3:8000"]);

    // All healthy initially
    let indices = get_healthy_worker_indices(&workers);
    assert_eq!(indices, vec![0, 1, 2]);

    // Mark one unhealthy
    workers[1].healthy = false;
    let indices = get_healthy_worker_indices(&workers);
    assert_eq!(indices, vec![0, 2]);
}

#[test]
fn an_open_circuit_breaker_takes_a_worker_out() {
    let mut workers = workers(&[W1, W2]);
    workers[0].can_execute = false;
    assert_eq!(get_healthy_worker_indices(&workers), vec![1]);
}

#[test]
fn reservations_saturate() {
    let mut worker = Worker::new(W1);
    worker.add_reserved_prefill_tokens(i64::MAX);
    worker.add_reserved_prefill_tokens(1);
    assert_eq!(worker.reserved_prefill_tokens, i64::MAX);
}

#[test]
fn tree_keys_name_pool_and_model() {
    let mut worker = Worker::new(W1);
    assert_eq!(tree_key_for_worker(&worker), "regular::unknown");
    worker.model_id = "llama".to_string();
    worker.worker_type = WorkerType::Prefill;
    assert_eq!(tree_key_for_worker(&worker), "prefill::llama");
    worker.worker_type = WorkerType::Decode;
    assert_eq!(tree_key_for_worker(&worker), "decode::llama");
    assert_eq!(pool_tag(&WorkerType::Regular), "regular");
    assert_eq!(normalize_model_key(""), "unknown");
    assert_eq!(normalize_model_key("m"), "m");
}

#[test]
fn default_configurations() {
    let chunk = ChunkAwareConfig::default();
    assert_eq!(chunk.chunk_size_tokens, 8192);
    assert_eq!(chunk.long_prefill_threshold_tokens, 8192);
    assert_eq!(chunk.load_weight, single(1.5));
    assert_eq!(chunk.prefill_work_weight, single(1.0));
    assert_eq!(chunk.prefix_affinity_credit, single(0.2));
    assert_eq!(chunk.min_cache_match_rate, single(0.3));
    assert_eq!(chunk.spillover_bound_chunks, single(4.0));
    assert_eq!(chunk.load_check_interval_secs, 1);
    assert_eq!(chunk.chars_per_token, single(4.0));
    assert_eq!(chunk.eviction_interval_secs, 120);
    assert_eq!(chunk.max_tree_size, 67_108_864);
    let cache = CacheAwareConfig::default();
    assert_eq!(cache.cache_threshold, single(0.5));
    assert_eq!(cache.balance_abs_threshold, 32);
    assert_eq!(cache.balance_rel_threshold, single(1.1));
    assert_eq!(cache.eviction_interval_secs, 30);
    assert_eq!(cache.max_tree_size, 10000);
    let bucket = BucketConfig::default();
    assert_eq!(bucket.balance_abs_threshold, 32);
    assert_eq!(bucket.balance_rel_threshold, single(1.0001));
    assert_eq!(bucket.bucket_adjust_interval_secs, 5);
}

#[test]
fn eviction_runs_only_with_an_interval() {
    let on = ChunkAwarePolicy::new();
    assert_eq!(
        on.eviction_schedule(),
        Some(EvictionSchedule { interval_secs: 120, max_tree_size: 67_108_864 })
    );
    assert_eq!(policy_with(ChunkAwareConfig::default()).eviction_schedule(), None);
}

#[test]
fn policy_describes_itself() {
    let policy = ChunkAwarePolicy::default();
    assert_eq!(policy.name(), "chunk_aware");
    assert!(policy.needs_request_text());
    assert!(policy.needs_load_updates());
    assert_eq!(policy.load_check_interval_secs(), Some(1));
    assert_eq!(policy.config().chunk_size_tokens, 8192);
}

#[test]
fn removing_a_worker_forgets_its_state() {
    let fleet = workers(&[W1, W2]);
    let mut router = Router::new(ChunkAwareConfig::default(), &fleet);
    set_loads(&mut router.policy, &[(W1, report(5, 0)), (W2, report(6, 0))]);
    match router.policy.remove_worker(&fleet[0]) {
        TreeAction::Forget { key, url } => {
            assert_eq!(key, "regular::unknown");
            assert_eq!(url, W1);
        }
        other => panic!("{other:?}"),
    }
    assert!(router.policy.prefill_state(W1).is_none());
    assert_eq!(router.policy.prefill_state(W2).unwrap().report, report(6, 0));
    match router.policy.remove_worker_by_url(W2) {
        TreeAction::ForgetEverywhere { url } => assert_eq!(url, W2),
        other => panic!("{other:?}"),
    }
    assert!(router.policy.prefill_state(W2).is_none());
}

#[test]
fn reset_returns_to_the_fresh_state() {
    let fleet = workers(&[W1, W2]);
    let mut router = Router::new(ChunkAwareConfig::default(), &fleet);
    set_loads(&mut router.policy, &[(W1, report(0, 0)), (W2, report(0, 0))]);
    assert_eq!(router.select(&fleet, "a"), Some(0));
    router.policy.reset();
    assert!(router.policy.prefill_state(W1).is_none());
    // The rotation starts over.
    assert_eq!(router.select(&fleet, "a"), Some(0));
    assert_eq!(router.select(&fleet, "a"), Some(1));
}

#[test]
fn requests_without_a_tree_are_not_recorded() {
    let fleet = workers(&[W1]);
    let mut policy = policy_with(ChunkAwareConfig::default());
    let text = SelectWorkerInfo { request_text: Some("abc"), ..Default::default() };
    assert!(policy.place(&fleet, &text).unwrap().record.is_none());
    let matches = [0usize];
    let empty = SelectWorkerInfo { prefix_matches: Some(&matches), ..Default::default() };
    assert!(policy.place(&fleet, &empty).unwrap().record.is_none());
    let both = SelectWorkerInfo { prefix_matches: Some(&matches), ..text };
    match policy.place(&fleet, &both).unwrap().record.unwrap() {
        TreeAction::Record { key, url } => {
            assert_eq!(key, "regular::unknown");
            assert_eq!(url, W1);
        }
        other => panic!("{other:?}"),
    }
}

#[test]
fn only_the_selected_worker_is_counted() {
    let mut fleet = workers(&[W1, W2]);
    let mut policy = policy_with(ChunkAwareConfig::default());
    set_loads(&mut policy, &[(W1, report(8192, 0)), (W2, report(0, 0))]);
    let dispatch = policy.place(&fleet, &SelectWorkerInfo::default()).unwrap();
    assert_eq!(dispatch.selection.index, 1);
    assert_eq!(dispatch.processed, 1);
    fleet[1].healthy = false;
    let dispatch = policy.place(&fleet, &SelectWorkerInfo::default()).unwrap();
    assert_eq!(dispatch.processed, 0);
    fleet[0].healthy = false;
    assert!(policy.place(&fleet, &SelectWorkerInfo::default()).is_none());
}

#[test]
fn tokens_round_to_the_nearest() {
    let policy = ChunkAwarePolicy::new();
    assert_eq!(policy.chars_to_tokens(0), 0);
    assert_eq!(policy.chars_to_tokens(1), 0);
    assert_eq!(policy.chars_to_tokens(2), 1);
    assert_eq!(policy.chars_to_tokens(40), 10);
    // Fewer than one character per token counts as one.
    let dense = policy_with(ChunkAwareConfig {
        chars_per_token: single(0.25),
        ..ChunkAwareConfig::default()
    });
    assert_eq!(dense.chars_to_tokens(7), 7);
    let broken = policy_with(ChunkAwareConfig {
        chars_per_token: single(f32::NAN),
        ..ChunkAwareConfig::default()
    });
    assert_eq!(broken.chars_to_tokens(7), 7);
}

#[test]
fn backlog_scales_with_the_measured_rate() {
    let policy = ChunkAwarePolicy::new();
    let rate = |x: f64| Some(Binary64::from_bits(x.to_bits()));
    let chunks = |tokens, r, m| number(policy.backlog_to_chunks(tokens, r, m));
    assert_eq!(chunks(12288, None, None), 1.5);
    assert_eq!(chunks(-5, None, None), 0.0);
    // Half the fleet's rate is charged twice.
    assert_eq!(chunks(8192, rate(0.5), rate(1.0)), 2.0);
    // On a homogeneous fleet the factor is one.
    assert_eq!(chunks(12288, rate(0.3), rate(0.3)), 1.5);
    assert_eq!(chunks(8192, rate(0.0), rate(1.0)), 1.0);
    assert_eq!(chunks(8192, rate(1.0), None), 1.0);
    let tiny = policy_with(ChunkAwareConfig {
        chunk_size_tokens: 0,
        ..ChunkAwareConfig::default()
    });
    assert_eq!(number(tiny.backlog_to_chunks(7, None, None)), 7.0);
}

#[test]
fn rates_are_smoothed() {
    let sample = |tokens: i64, busy_us: i64| PrefillLoadReport {
        waiting_uncached_tokens: 0,
        running_reqs: 0,
        total_prefill_uncached_tokens: Some(tokens),
        total_prefill_busy_us: Some(busy_us),
    };
    let mut state = PrefillState::default();
    assert_eq!(state.report, PrefillLoadReport::default());
    state.observe(sample(0, 0));
    assert!(state.rate_tokens_per_us.is_none());
    state.observe(sample(2_000, 1_000));
    assert_eq!(number(state.rate_tokens_per_us.unwrap()), 2.0);
    state.observe(sample(3_000, 2_000));
    let expected = 2.0 * (1.0 - 0.3) + 1.0 * 0.3;
    assert_eq!(number(state.rate_tokens_per_us.unwrap()), expected);
    // Too short a sample, and one without tokens, keep the rate.
    state.observe(sample(9_000, 2_999));
    assert_eq!(number(state.rate_tokens_per_us.unwrap()), expected);
    state.observe(sample(9_000, 12_999));
    assert_eq!(number(state.rate_tokens_per_us.unwrap()), expected);
    // A report without counters drops the rate, and keeps the counters.
    state.observe(report(7, 1));
    assert!(state.rate_tokens_per_us.is_none());
    assert_eq!(state.prev_total_tokens, Some(9_000));
    assert_eq!(state.report, report(7, 1));
}

#[test]
fn the_median_is_the_upper_middle() {
    let mut store = PrefillStore::new();
    assert!(store.median_rate().is_none());
    for (i, rate) in [4.0f64, 1.0, 3.0, 2.0, 0.0, -1.0].iter().enumerate() {
        let state = PrefillState {
            rate_tokens_per_us: Some(Binary64::from_bits(rate.to_bits())),
            ..PrefillState::default()
        };
        store.put(format!("w{i}"), state);
    }
    store.put("unmeasured".to_string(), PrefillState::default());
    assert_eq!(number(store.median_rate().unwrap()), 3.0);
    store.remove("w0");
    assert_eq!(number(store.median_rate().unwrap()), 2.0);
    assert!(store.get("w0").is_none());
    store.clear();
    assert!(store.get("w1").is_none());
    assert!(store.median_rate().is_none());
}

#[test]
fn near_scores_tie_and_rotate() {
    let scores = |xs: &[f64]| -> Vec<Binary64> {
        xs.iter().map(|x| Binary64::from_bits(x.to_bits())).collect()
    };
    assert_eq!(pick(&scores(&[3.0, 1.0, 2.0]), 7), (1, 7));
    // Within 1e-9 of the best.
    assert_eq!(pick(&scores(&[1.0, 1.0 + 5e-10, 2.0]), 3), (1, 4));
    assert_eq!(pick(&scores(&[1.0, 1.0 + 5e-10, 2.0]), usize::MAX), (1, 0));
    assert_eq!(pick(&scores(&[1.0, 1.0 - 5e-10]), 0), (0, 1));
    assert_eq!(pick(&scores(&[1.0, 1.0 - 5e-10]), 1), (1, 2));
    // A difference in the last bit is a tie at any size of ordinary scores.
    for base in [0.0, 1.0, 4.0, 1000.0, 100_000.0f64] {
        let above = f64::from_bits(base.to_bits() + 1);
        assert_eq!(pick(&scores(&[above, base]), 0), (0, 1));
        assert_eq!(pick(&scores(&[base, above]), 0), (0, 1));
    }
    // A score that is lower by more starts the list of ties anew.
    assert_eq!(pick(&scores(&[1.0, 1.0 - 2e-9]), 0), (1, 0));
    // Scores that are not finite are passed over; the first one is the fallback.
    assert_eq!(pick(&scores(&[f64::NAN, 5.0, f64::NEG_INFINITY]), 0), (1, 0));
    assert_eq!(pick(&scores(&[f64::NAN, f64::INFINITY]), 9), (0, 9));
}

#[test]
fn near_equal_candidates_take_turns_in_either_order() {
    let candidate = |index: usize| Candidate {
        index,
        backlog_chunks: single(0.0),
        matched_chars: 0,
        new_tokens: 0,
        running: single(0.0),
    };
    let candidates = vec![candidate(0), candidate(1)];
    for pair in [[1.0, 1.0 - 1e-10], [1.0 - 1e-10, 1.0f64]] {
        let scores: Vec<Binary64> = pair.iter().map(|x| Binary64::from_bits(x.to_bits())).collect();
        let mut policy = ChunkAwarePolicy::new();
        assert_eq!(policy.argmin_by(&candidates, &scores).unwrap().index, 0);
        assert_eq!(policy.argmin_by(&candidates, &scores).unwrap().index, 1);
    }
}

#[test]
fn scores_just_beyond_the_tolerance_are_no_ties() {
    let turns = |xs: &[f64], calls: usize| -> Vec<usize> {
        let scores: Vec<Binary64> = xs.iter().map(|x| Binary64::from_bits(x.to_bits())).collect();
        let candidates: Vec<Candidate> = (0..xs.len())
            .map(|index| Candidate {
                index,
                backlog_chunks: single(0.0),
                matched_chars: 0,
                new_tokens: 0,
                running: single(0.0),
            })
            .collect();
        let mut policy = ChunkAwarePolicy::new();
        (0..calls).map(|_| policy.argmin_by(&candidates, &scores).unwrap().index).collect()
    };
    let power = |n: i32| 2f64.powi(n);
    // The next lower number is more than the tolerance away.
    let high = 8_388_609.0;
    assert_eq!(turns(&[high, high - power(-29), high - power(-29)], 4), vec![1, 2, 1, 2]);
    let low = -power(23);
    let scores = [low, low - power(-29), low + power(-30)];
    assert_eq!(turns(&scores, 3), vec![1, 1, 1]);
    assert_eq!(turns(&[scores[0], f64::NAN, scores[1], scores[2]], 2), vec![2, 2]);
    // Below the first by a rounded 1e-9.
    assert_eq!(turns(&[1.0, 1.0 - 1.2e-9, 1.0 - 1.2e-9, 1.0], 3), vec![1, 2, 1]);
    // What ties is decided by the lowest score, not by the first.
    assert_eq!(turns(&[1.0, 1.0 - 8e-10, 1.0 - 1.6e-9], 3), vec![1, 2, 1]);
}

#[test]
fn argmin_of_no_candidates_is_none() {
    let mut policy = ChunkAwarePolicy::new();
    assert!(policy.argmin_by(&Vec::new(), &Vec::new()).is_none());
    let candidate = Candidate {
        index: 4,
        backlog_chunks: single(0.0),
        matched_chars: 0,
        new_tokens: 0,
        running: single(0.0),
    };
    let chosen = policy.argmin_by(&vec![candidate], &vec![single(1.0)]).unwrap();
    assert_eq!(chosen.index, 4);
}

#[test]
fn running_requests_take_the_larger_count() {
    let mut fleet = workers(&[W1, W2]);
    let mut policy = policy_with(ChunkAwareConfig::default());
    fleet[0].load = 3;
    set_loads(&mut policy, &[(W1, report(0, 1)), (W2, report(0, 5))]);
    let info = SelectWorkerInfo::default();
    let candidates = policy.build_candidates(&fleet, &vec![0, 1], &info, 10);
    assert_eq!(number(candidates[0].running), 3.0);
    assert_eq!(number(candidates[1].running), 5.0);
    assert_eq!(candidates[0].new_tokens, 10);
    let scores = policy.score_candidates(&info, &candidates);
    assert_eq!(number(scores[0]), 4.5);
    assert_eq!(number(scores[1]), 7.5);
    assert!(!policy.is_spilling(&candidates));
}

/// A policy that reserves nothing, and counts how often it is asked.
struct Fixed(Option<usize>, usize);

impl LoadBalancingPolicy for Fixed {
    fn select_worker(&mut self, _workers: &[Worker], _info: &SelectWorkerInfo) -> Option<usize> {
        self.1 += 1;
        self.0
    }

    fn name(&self) -> &'static str {
        "fixed"
    }
}

#[test]
fn policies_reserve_nothing_by_default() {
    let info = SelectWorkerInfo::default();
    let mut fixed = Fixed(Some(2), 0);
    assert_eq!(
        fixed.select_worker_detailed(&[], &info),
        Some(WorkerSelection { index: 2, reserved_prefill_tokens: 0 })
    );
    assert_eq!(fixed.1, 1);
    assert_eq!(WorkerSelection::at(3).index, 3);
    assert_eq!(Fixed(None, 0).select_worker_detailed(&[], &info), None);
    assert!(!fixed.needs_load_updates());
    assert!(!fixed.needs_request_text());
    assert_eq!(fixed.load_check_interval_secs(), None);
    fixed.on_request_complete(W1, true);
    fixed.update_prefill_loads(&[], &KeyedList::new());
    fixed.update_loads(&KeyedList::new());
    fixed.reset();
    assert_eq!(fixed.0, Some(2));
}
