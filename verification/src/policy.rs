//! What all routing policies share: the interface, the selection that a policy
//! returns, the load reports that it receives, and the configurations.
use crate::binary64::Binary64;
use crate::keyed::KeyedList;
use crate::number::{one, rounded_single};
use crate::worker::Worker;
use vstd::prelude::*;

verus! {

/// A worker choice plus the side-effects the router must apply for it.
#[derive(Debug, Clone, Copy, PartialEq, Eq, Structural)]
pub struct WorkerSelection {
    /// Index into the `workers` slice passed to the policy.
    pub index: usize,
    /// Uncached prefill tokens to reserve on the chosen worker until the
    /// response completes. 0 for policies that do not reserve.
    pub reserved_prefill_tokens: i64,
}

impl WorkerSelection {
    /// A selection with no reservation.
    pub fn at(index: usize) -> (r: Self)
        ensures
            r == (WorkerSelection { index, reserved_prefill_tokens: 0 }),
    {
        Self { index, reserved_prefill_tokens: 0 }
    }
}

/// The selection that a bare index stands for.
pub open spec fn unreserved(index: Option<usize>) -> Option<WorkerSelection> {
    match index {
        Some(index) => Some(WorkerSelection { index, reserved_prefill_tokens: 0 }),
        None => None,
    }
}

/// Turns the answer of a policy that reserves nothing into a selection.
pub fn without_reservation(index: Option<usize>) -> (r: Option<WorkerSelection>)
    ensures
        r == unreserved(index),
{
    match index {
        Some(index) => Some(WorkerSelection::at(index)),
        None => None,
    }
}

/// Per-worker prefill load, as reported by the worker's `/v1/loads?include=core`.
///
/// The two cumulative counters exist only on newer workers; they are `None`
/// against older ones, in which case chunk_aware falls back to a fixed
/// chunk-size proxy instead of a measured rate.
#[derive(Debug, Clone, Copy, PartialEq, Eq, Structural)]
pub struct PrefillLoadReport {
    /// Uncached input tokens queued for prefill compute (`num_waiting_uncached_tokens`).
    pub waiting_uncached_tokens: i64,
    /// Requests currently running (`num_running_reqs`).
    pub running_reqs: i64,
    /// Cumulative tokens prefilled (`total_prefill_uncached_tokens`).
    pub total_prefill_uncached_tokens: Option<i64>,
    /// Cumulative microseconds spent prefilling (`total_prefill_busy_us`).
    pub total_prefill_busy_us: Option<i64>,
}

impl PrefillLoadReport {
    /// The report of a worker that nothing is known of.
    pub open spec fn nothing() -> PrefillLoadReport {
        PrefillLoadReport {
            waiting_uncached_tokens: 0,
            running_reqs: 0,
            total_prefill_uncached_tokens: None,
            total_prefill_busy_us: None,
        }
    }
}

impl Default for PrefillLoadReport {
    fn default() -> (r: Self)
        ensures
            r == PrefillLoadReport::nothing(),
    {
        PrefillLoadReport {
            waiting_uncached_tokens: 0,
            running_reqs: 0,
            total_prefill_uncached_tokens: None,
            total_prefill_busy_us: None,
        }
    }
}

/// Configuration for the chunk-aware policy.
///
/// The weights, rates and bounds are single-precision numbers.
#[derive(Debug, Clone, Copy)]
pub struct ChunkAwareConfig {
    /// Prefill chunk size, in tokens. Used as the unit that converts a token
    /// backlog into a comparable "chunks of queued work" score.
    pub chunk_size_tokens: usize,
    /// Requests below this token count route on load + backlog only, ignoring
    /// prefix affinity entirely.
    pub long_prefill_threshold_tokens: usize,
    /// Weight on running-request count.
    pub load_weight: Binary64,
    /// Weight on queued prefill work.
    pub prefill_work_weight: Binary64,
    /// Weight on the prefix-affinity credit (subtracted from the score).
    pub prefix_affinity_credit: Binary64,
    /// Minimum prefix match rate before any affinity credit is granted.
    pub min_cache_match_rate: Binary64,
    /// If the backlog gap between best and worst worker exceeds this many
    /// chunks, ignore affinity and route to the least-backlogged worker.
    pub spillover_bound_chunks: Binary64,
    /// Worker load poll interval.
    pub load_check_interval_secs: u64,
    /// Characters per token, used to estimate token counts from request text.
    pub chars_per_token: Binary64,
    /// Radix tree eviction interval; zero turns eviction off.
    pub eviction_interval_secs: u64,
    /// Max radix tree size.
    pub max_tree_size: usize,
}

impl ChunkAwareConfig {
    /// The configuration of the reference deployment.
    pub open spec fn is_default(self) -> bool {
        &&& self.chunk_size_tokens == 8192
        &&& self.long_prefill_threshold_tokens == 8192
        &&& self.load_weight@ == rounded_single(false, 3 * one(), 2)
        &&& self.prefill_work_weight@ == rounded_single(false, 1 * one(), 1)
        &&& self.prefix_affinity_credit@ == rounded_single(false, 2 * one(), 10)
        &&& self.min_cache_match_rate@ == rounded_single(false, 3 * one(), 10)
        &&& self.spillover_bound_chunks@ == rounded_single(false, 4 * one(), 1)
        &&& self.load_check_interval_secs == 1
        &&& self.chars_per_token@ == rounded_single(false, 4 * one(), 1)
        &&& self.eviction_interval_secs == 120
        &&& self.max_tree_size == 67_108_864
    }
}

impl Default for ChunkAwareConfig {
    fn default() -> (r: Self)
        ensures
            r.is_default(),
    {
        ChunkAwareConfig {
            chunk_size_tokens: 8192,
            long_prefill_threshold_tokens: 8192,
            load_weight: Binary64::single_ratio(3, 2),
            prefill_work_weight: Binary64::single_ratio(1, 1),
            prefix_affinity_credit: Binary64::single_ratio(2, 10),
            min_cache_match_rate: Binary64::single_ratio(3, 10),
            spillover_bound_chunks: Binary64::single_ratio(4, 1),
            load_check_interval_secs: 1,
            chars_per_token: Binary64::single_ratio(4, 1),
            eviction_interval_secs: 120,
            max_tree_size: 67_108_864,
        }
    }
}

/// Configuration for the cache-aware policy.
#[derive(Debug, Clone, Copy)]
pub struct CacheAwareConfig {
    pub cache_threshold: Binary64,
    pub balance_abs_threshold: usize,
    pub balance_rel_threshold: Binary64,
    pub eviction_interval_secs: u64,
    pub max_tree_size: usize,
}

impl Default for CacheAwareConfig {
    fn default() -> (r: Self)
        ensures
            r.cache_threshold@ == rounded_single(false, 5 * one(), 10),
            r.balance_abs_threshold == 32,
            r.balance_rel_threshold@ == rounded_single(false, 11 * one(), 10),
            r.eviction_interval_secs == 30,
            r.max_tree_size == 10000,
    {
        CacheAwareConfig {
            cache_threshold: Binary64::single_ratio(5, 10),
            balance_abs_threshold: 32,
            balance_rel_threshold: Binary64::single_ratio(11, 10),
            eviction_interval_secs: 30,
            max_tree_size: 10000,
        }
    }
}

/// Configuration for the bucket policy.
#[derive(Debug, Clone, Copy)]
pub struct BucketConfig {
    pub balance_abs_threshold: usize,
    pub balance_rel_threshold: Binary64,
    pub bucket_adjust_interval_secs: usize,
}

impl Default for BucketConfig {
    fn default() -> (r: Self)
        ensures
            r.balance_abs_threshold == 32,
            r.balance_rel_threshold@ == rounded_single(false, 10001 * one(), 10000),
            r.bucket_adjust_interval_secs == 5,
    {
        BucketConfig {
            balance_abs_threshold: 32,
            balance_rel_threshold: Binary64::single_ratio(10001, 10000),
            bucket_adjust_interval_secs: 5,
        }
    }
}

/// Information passed to a policy for worker selection.
#[derive(Debug, Clone, Copy)]
pub struct SelectWorkerInfo<'a> {
    /// Request text for prefix-affine routing.
    pub request_text: Option<&'a str>,
    /// Tokenized request for prefix-hash routing.
    pub tokens: Option<&'a [u32]>,
    /// For each worker, by its index, how many leading characters of the
    /// request text the prefix tree of the pool holds for it. `None` while the
    /// pool has no tree.
    pub prefix_matches: Option<&'a [usize]>,
}

impl<'a> SelectWorkerInfo<'a> {
    /// The request text, empty where there is none.
    pub open spec fn text(&self) -> Seq<char> {
        match self.request_text {
            Some(text) => text@,
            None => Seq::empty(),
        }
    }

    /// Characters of the request that the worker at `index` holds.
    pub open spec fn matched(&self, index: int) -> usize {
        match self.prefix_matches {
            Some(matches) => if self.text().len() > 0 && 0 <= index < matches@.len() {
                matches@[index]
            } else {
                0
            },
            None => 0,
        }
    }
}

impl<'a> Default for SelectWorkerInfo<'a> {
    fn default() -> (r: Self)
        ensures
            r.request_text is None,
            r.tokens is None,
            r.prefix_matches is None,
    {
        SelectWorkerInfo { request_text: None, tokens: None, prefix_matches: None }
    }
}

/// Interface of the load balancing policies.
pub trait LoadBalancingPolicy: Sized {
    /// Whether the policy, in its present state, may answer a request with
    /// `choice` and be left as `after`. A policy that does not say may answer with
    /// anything, and change in any way.
    open spec fn may_select(
        &self,
        workers: Seq<Worker>,
        info: SelectWorkerInfo,
        choice: Option<usize>,
        after: Self,
    ) -> bool {
        true
    }

    /// Whether the policy reserves work at dispatch time. One that does not say
    /// reserves nothing.
    open spec fn reserves(&self) -> bool {
        false
    }

    /// Selects a single worker from the available workers.
    fn select_worker(&mut self, workers: &[Worker], info: &SelectWorkerInfo) -> (r: Option<usize>)
        ensures
            old(self).may_select(workers@, *info, r, *final(self)),
    ;

    /// Selects a worker and reports any side-effects the caller must apply.
    ///
    /// Policies that reserve work at dispatch time tell the router how much, so
    /// that the router can tie the release to the lifetime of the response. The
    /// others answer as `select_worker` does, asked once, and reserve nothing;
    /// the default does so.
    fn select_worker_detailed(&mut self, workers: &[Worker], info: &SelectWorkerInfo) -> (r: Option<
        WorkerSelection,
    >)
        ensures
            !old(self).reserves() ==> exists|choice: Option<usize>| #[trigger]
                old(self).may_select(workers@, *info, choice, *final(self)) && r == unreserved(
                    choice,
                ),
        default_ensures
            exists|choice: Option<usize>| #[trigger]
                old(self).may_select(workers@, *info, choice, *final(self)) && r == unreserved(
                    choice,
                ),
    {
        let index: Option<usize> = self.select_worker(workers, info);
        without_reservation(index)
    }

    /// Updates policy state after request completion. The default does nothing.
    fn on_request_complete(&mut self, _worker_url: &str, _success: bool)
        default_ensures
            *final(self) == *old(self),
    {
    }

    /// Whether this policy needs the load monitor to poll worker load.
    fn needs_load_updates(&self) -> (r: bool)
        default_ensures
            !r,
    {
        false
    }

    /// Preferred load poll interval in seconds, if this policy has an opinion.
    fn load_check_interval_secs(&self) -> (r: Option<u64>)
        default_ensures
            r is None,
    {
        None
    }

    /// Receives the detailed per-worker prefill load snapshot. The default does
    /// nothing.
    fn update_prefill_loads(&mut self, _workers: &[Worker], _reports: &KeyedList<PrefillLoadReport>)
        default_ensures
            *final(self) == *old(self),
    {
    }

    /// Policy name for metrics and debugging.
    fn name(&self) -> (r: &'static str);

    /// Whether this policy needs request text for routing decisions.
    fn needs_request_text(&self) -> (r: bool)
        default_ensures
            !r,
    {
        false
    }

    /// Receives the scalar worker loads. The default does nothing.
    fn update_loads(&mut self, _loads: &KeyedList<isize>)
        default_ensures
            *final(self) == *old(self),
    {
    }

    /// Resets any internal state. The default does nothing.
    fn reset(&mut self)
        default_ensures
            *final(self) == *old(self),
    {
    }
}

} // verus!
