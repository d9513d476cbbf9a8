//! Chunk-aware load balancing.
//!
//! Places requests by *pending prefill work* rather than by longest prefix
//! match, treating prefix affinity as a bounded credit instead of an override.
//!
//! For each candidate worker:
//!
//! ```text
//! backlog = reported waiting-uncached tokens + router-side reservation
//! chunks  = backlog / chunk_size, scaled by measured prefill rate
//! credit  = affinity_credit * chunks(match), if match rate clears
//!           min_cache_match_rate; otherwise 0
//! score   = load_weight * running + prefill_work_weight * chunks - credit
//! ```
//!
//! The lowest score wins, round-robin among ties.
//!
//! Three rules keep it honest. Work reservation: dispatch reserves the
//! request's uncached token count on the chosen worker, so that a burst inside
//! one poll window does not see identical stale backlogs. Bounded spillover: if
//! the backlog gap between the best and the worst worker exceeds
//! `spillover_bound_chunks`, affinity is ignored and the least-backlogged
//! worker wins. Long-prefill gate: affinity applies only to requests of at
//! least `long_prefill_threshold_tokens`.
use crate::binary64::Binary64;
use crate::keyed::{by_key, KeyedList};
use crate::number::{
    ceiling, difference, greater, lemma_one_is_exact, less, lesser, nearest_integer, of_integer,
    positive, product, quotient, single_of_integer, single_product, sum, Number,
};
use crate::policy::{
    ChunkAwareConfig, LoadBalancingPolicy, PrefillLoadReport, SelectWorkerInfo, WorkerSelection,
};
use crate::prefill::{number_of, PrefillModel, PrefillState};
use crate::rates::{is_rate, law_rates_stay_sound};
use crate::scoring::{next_turn, numbers, pick, winner};
use crate::store::{is_median, median_of, rate_of, rated, state_of, PrefillStore};
use crate::worker::{
    get_healthy_worker_indices, healthy_indices, lemma_healthy_indices, tree_key,
    tree_key_for_worker, Worker,
};
use vstd::prelude::*;
use vstd::string::*;

verus! {

/// The token count estimated from a number of characters.
pub open spec fn tokens_of_chars(config: ChunkAwareConfig, chars: nat) -> i64 {
    nearest_integer(
        quotient(of_integer(chars as int), greater(config.chars_per_token@, of_integer(1))),
    )
}

/// The chunk size as a number, at least one.
pub open spec fn chunk_size(config: ChunkAwareConfig) -> Number {
    of_integer(
        if config.chunk_size_tokens < 1 {
            1
        } else {
            config.chunk_size_tokens as int
        },
    )
}

/// A token backlog in chunk-equivalents.
///
/// With a measured rate this is scaled by `median / rate`, so a worker that
/// prefills at half the fleet's rate is charged twice the backlog for the same
/// token count.
pub open spec fn chunks_of_tokens(
    config: ChunkAwareConfig,
    tokens: int,
    rate: Option<Number>,
    median: Option<Number>,
) -> Number {
    let base = quotient(
        of_integer(
            if tokens < 0 {
                0
            } else {
                tokens
            },
        ),
        chunk_size(config),
    );
    match (rate, median) {
        (Some(rate), Some(median)) => if positive(rate) && positive(median) {
            product(base, quotient(median, rate))
        } else {
            base
        },
        _ => base,
    }
}

/// The reservations made on a worker since its last report was taken.
pub open spec fn unseen_reservation(state: PrefillModel, worker: Worker) -> int {
    let excess = worker.reserved_prefill_tokens - state.reservation_baseline;
    if excess < 0 {
        0
    } else {
        excess
    }
}

/// The prefill tokens queued on a worker: what it reported, and what was
/// dispatched to it since.
pub open spec fn backlog_tokens(state: PrefillModel, worker: Worker) -> int {
    state.report.waiting_uncached_tokens + unseen_reservation(state, worker)
}

/// The running requests of a worker: the larger of the reported count, which
/// also sees traffic that bypassed the router, and the live one.
pub open spec fn running_requests(state: PrefillModel, worker: Worker) -> int {
    if state.report.running_reqs > worker.load {
        state.report.running_reqs as int
    } else {
        worker.load as int
    }
}

/// Per-worker inputs to one scoring pass.
#[derive(Debug, Clone, Copy)]
pub struct Candidate {
    /// Index into the caller's `workers` slice.
    pub index: usize,
    /// Queued prefill work, expressed in chunk-equivalents.
    pub backlog_chunks: Binary64,
    /// Characters of this request already resident on the worker.
    pub matched_chars: usize,
    /// Uncached tokens this request would add to the worker.
    pub new_tokens: i64,
    /// Running requests.
    pub running: Binary64,
}

/// The value of a [`Candidate`].
pub struct CandidateModel {
    pub index: usize,
    pub backlog: Number,
    pub matched_chars: usize,
    pub new_tokens: int,
    pub running: Number,
}

impl View for Candidate {
    type V = CandidateModel;

    open spec fn view(&self) -> CandidateModel {
        CandidateModel {
            index: self.index,
            backlog: self.backlog_chunks@,
            matched_chars: self.matched_chars,
            new_tokens: self.new_tokens as int,
            running: self.running@,
        }
    }
}

/// The value of a [`ChunkAwarePolicy`].
pub struct PolicyModel {
    pub config: ChunkAwareConfig,
    /// Prefill state by worker URL.
    pub states: Map<Seq<char>, PrefillModel>,
    /// The fleet's median rate at the last load update.
    pub median: Option<Number>,
    /// Whose turn it is among equally-scored workers.
    pub turn: usize,
}

/// The uncached remainder of a request of `est_tokens` tokens.
pub open spec fn uncached_tokens(
    config: ChunkAwareConfig,
    est_tokens: int,
    matched_chars: nat,
) -> int {
    let rest = est_tokens - tokens_of_chars(config, matched_chars);
    if rest < 0 {
        0
    } else {
        rest
    }
}

impl PolicyModel {
    /// The scoring inputs of the worker at `index`.
    pub open spec fn candidate(
        self,
        workers: Seq<Worker>,
        index: usize,
        matched_chars: usize,
        est_tokens: int,
    ) -> CandidateModel {
        let worker = workers[index as int];
        let state = state_of(self.states, worker.url@);
        CandidateModel {
            index,
            backlog: chunks_of_tokens(
                self.config,
                backlog_tokens(state, worker),
                state.rate,
                self.median,
            ),
            matched_chars,
            new_tokens: uncached_tokens(self.config, est_tokens, matched_chars as nat),
            running: of_integer(running_requests(state, worker)),
        }
    }

    /// The scoring inputs of the workers at the given indices.
    pub open spec fn candidates_at(
        self,
        workers: Seq<Worker>,
        indices: Seq<usize>,
        info: SelectWorkerInfo,
        est_tokens: int,
    ) -> Seq<CandidateModel> {
        Seq::new(
            indices.len(),
            |i: int|
                self.candidate(workers, indices[i], info.matched(indices[i] as int), est_tokens),
        )
    }

    /// The token count estimated for a request.
    pub open spec fn est_tokens(self, info: SelectWorkerInfo) -> int {
        tokens_of_chars(self.config, info.text().len()) as int
    }

    /// The scoring inputs of all available workers.
    pub open spec fn candidates(
        self,
        workers: Seq<Worker>,
        info: SelectWorkerInfo,
    ) -> Seq<CandidateModel> {
        self.candidates_at(workers, healthy_indices(workers), info, self.est_tokens(info))
    }

    /// The prefill tokens queued on the available worker at `place`.
    pub open spec fn tokens_at(self, workers: Seq<Worker>, place: int) -> int {
        let worker = workers[healthy_indices(workers)[place] as int];
        backlog_tokens(state_of(self.states, worker.url@), worker)
    }

    /// Whether the fleet is so skewed that affinity is off the table.
    pub open spec fn spilling(self, candidates: Seq<CandidateModel>) -> bool {
        less(
            self.config.spillover_bound_chunks@,
            difference(highest_backlog(candidates), lowest_backlog(candidates)),
        )
    }

    /// Whether a request is long enough to earn affinity.
    pub open spec fn is_long(self, info: SelectWorkerInfo) -> bool {
        self.est_tokens(info) >= self.config.long_prefill_threshold_tokens
    }

    /// The number of matched characters from which a match counts.
    pub open spec fn min_match_chars(self, info: SelectWorkerInfo) -> usize {
        ceiling(
            single_product(
                single_of_integer(info.text().len()),
                self.config.min_cache_match_rate@,
            ),
        )
    }

    /// The affinity credit of a candidate.
    pub open spec fn credit(self, info: SelectWorkerInfo, candidate: CandidateModel) -> Number {
        if self.is_long(info) && candidate.matched_chars >= self.min_match_chars(info)
            && candidate.matched_chars > 0 {
            product(
                self.config.prefix_affinity_credit@,
                quotient(
                    of_integer(
                        tokens_of_chars(self.config, candidate.matched_chars as nat) as int,
                    ),
                    chunk_size(self.config),
                ),
            )
        } else {
            Number::Finite { negative: false, quanta: 0 }
        }
    }

    /// The weighted load and backlog of a candidate.
    pub open spec fn pressure(self, candidate: CandidateModel) -> Number {
        sum(
            product(self.config.load_weight@, candidate.running),
            product(self.config.prefill_work_weight@, candidate.backlog),
        )
    }

    /// The score of a candidate: its backlog alone while the fleet spills over,
    /// else the weighted load and backlog less the affinity credit.
    pub open spec fn score(
        self,
        info: SelectWorkerInfo,
        candidate: CandidateModel,
        spilling: bool,
    ) -> Number {
        if spilling {
            candidate.backlog
        } else {
            difference(self.pressure(candidate), self.credit(info, candidate))
        }
    }

    /// The scores of all candidates.
    pub open spec fn scores(
        self,
        info: SelectWorkerInfo,
        candidates: Seq<CandidateModel>,
    ) -> Seq<Number> {
        let spilling = self.spilling(candidates);
        Seq::new(candidates.len(), |i: int| self.score(info, candidates[i], spilling))
    }

    /// The candidate that a request goes to.
    pub open spec fn chosen(
        self,
        workers: Seq<Worker>,
        info: SelectWorkerInfo,
    ) -> CandidateModel {
        let candidates = self.candidates(workers, info);
        candidates[winner(self.scores(info, candidates), self.turn) as int]
    }

    /// The selection for a request: none without an available worker, else the
    /// chosen worker and the uncached tokens to reserve on it.
    pub open spec fn selection(
        self,
        workers: Seq<Worker>,
        info: SelectWorkerInfo,
    ) -> Option<WorkerSelection> {
        if healthy_indices(workers).len() == 0 {
            None
        } else {
            let chosen = self.chosen(workers, info);
            Some(
                WorkerSelection {
                    index: chosen.index,
                    reserved_prefill_tokens: chosen.new_tokens as i64,
                },
            )
        }
    }

    /// The policy after a request was placed.
    pub open spec fn after_selection(
        self,
        workers: Seq<Worker>,
        info: SelectWorkerInfo,
    ) -> PolicyModel {
        if healthy_indices(workers).len() == 0 {
            self
        } else {
            PolicyModel {
                turn: next_turn(self.scores(info, self.candidates(workers, info)), self.turn),
                ..self
            }
        }
    }
}

/// The reservation counter of the worker at `url`, zero where there is none.
pub open spec fn reservation_of(workers: Seq<Worker>, url: Seq<char>) -> i64
    decreases workers.len(),
{
    if workers.len() == 0 {
        0
    } else if workers[0].url@ == url {
        workers[0].reserved_prefill_tokens
    } else {
        reservation_of(workers.drop_first(), url)
    }
}

/// The states after a poll: each reported worker's state takes its report in.
pub open spec fn polled_states(
    states: Map<Seq<char>, PrefillModel>,
    workers: Seq<Worker>,
    reports: Map<Seq<char>, PrefillLoadReport>,
) -> Map<Seq<char>, PrefillModel> {
    Map::new(
        |url: Seq<char>| states.contains_key(url) || reports.contains_key(url),
        |url: Seq<char>|
            if reports.contains_key(url) {
                state_of(states, url).polled(reports[url], reservation_of(workers, url))
            } else {
                states[url]
            },
    )
}

impl PolicyModel {
    /// The policy before the first poll and the first request.
    pub open spec fn fresh(config: ChunkAwareConfig) -> PolicyModel {
        PolicyModel { config, states: Map::empty(), median: None, turn: 0 }
    }

    /// Whether all measured rates, and the median, are within the range of one.
    pub open spec fn is_sound(self) -> bool {
        &&& forall|url: Seq<char>| #[trigger]
            self.states.contains_key(url) ==> self.states[url].is_sound()
        &&& self.median matches Some(rate) ==> is_rate(rate)
    }

    /// The policy after a poll.
    pub open spec fn polled(
        self,
        workers: Seq<Worker>,
        reports: Map<Seq<char>, PrefillLoadReport>,
    ) -> PolicyModel {
        let states = polled_states(self.states, workers, reports);
        PolicyModel { states, median: median_of(states), ..self }
    }

    /// The policy after a worker was removed.
    pub open spec fn without(self, url: Seq<char>) -> PolicyModel {
        PolicyModel { states: self.states.remove(url), ..self }
    }
}

/// The lowest backlog among the candidates.
pub open spec fn lowest_backlog(candidates: Seq<CandidateModel>) -> Number
    decreases candidates.len(),
{
    if candidates.len() == 0 {
        Number::Infinite { negative: false }
    } else {
        lesser(lowest_backlog(candidates.drop_last()), candidates.last().backlog)
    }
}

/// The highest backlog among the candidates.
pub open spec fn highest_backlog(candidates: Seq<CandidateModel>) -> Number
    decreases candidates.len(),
{
    if candidates.len() == 0 {
        Number::Infinite { negative: true }
    } else {
        greater(highest_backlog(candidates.drop_last()), candidates.last().backlog)
    }
}

/// What a request does to the prefix trees, which the router keeps by tree key.
#[derive(Debug)]
pub enum TreeAction {
    /// Create the tree if it is missing, and make the worker one of its tenants.
    Seed { key: String, url: String },
    /// Record the request text for the worker.
    Record { key: String, url: String },
    /// Remove the worker from the tree, if the tree exists.
    Forget { key: String, url: String },
    /// Remove the worker from all trees.
    ForgetEverywhere { url: String },
}

/// A placed request: the selection, what it does to the prefix trees, and the
/// worker that the router counts it on.
#[derive(Debug)]
pub struct Dispatch {
    pub selection: WorkerSelection,
    pub record: Option<TreeAction>,
    /// Index of the worker whose count of processed requests goes up by one.
    pub processed: usize,
}

/// The count of processed requests of each worker once the router has acted on a
/// placement.
pub open spec fn counts_after(counts: Seq<nat>, placement: Option<Dispatch>) -> Seq<nat> {
    match placement {
        Some(dispatch) => counts.update(
            dispatch.processed as int,
            counts[dispatch.processed as int] + 1,
        ),
        None => counts,
    }
}

/// When the prefix trees are to be trimmed, and to which size.
#[derive(Debug, Clone, Copy, PartialEq, Eq, Structural)]
pub struct EvictionSchedule {
    pub interval_secs: u64,
    pub max_tree_size: usize,
}

#[derive(Debug)]
pub struct ChunkAwarePolicy {
    config: ChunkAwareConfig,
    /// Prefill state by worker URL, refreshed by the load monitor.
    prefill: PrefillStore,
    /// Rotates the winner among equally-scored workers.
    tie_breaker: usize,
    /// Fleet median prefill rate, recomputed on each load update.
    median_rate: Option<Binary64>,
}

impl View for ChunkAwarePolicy {
    type V = PolicyModel;

    closed spec fn view(&self) -> PolicyModel {
        PolicyModel {
            config: self.config,
            states: self.prefill@,
            median: number_of(self.median_rate),
            turn: self.tie_breaker,
        }
    }
}

proof fn lemma_quotient_sign(chars: nat, config: ChunkAwareConfig)
    ensures
        tokens_of_chars(config, chars) >= 0,
{
    lemma_one_is_exact();
    let per_token = greater(config.chars_per_token@, of_integer(1));
    assert(!per_token.is_negative());
    let q = quotient(of_integer(chars as int), per_token);
    assert(!q.is_negative());
}

impl ChunkAwarePolicy {
    /// The token count estimated from a number of characters.
    pub fn chars_to_tokens(&self, chars: usize) -> (r: i64)
        ensures
            r == tokens_of_chars(self@.config, chars as nat),
            r >= 0,
    {
        let per_token: Binary64 = self.config.chars_per_token.max(Binary64::from_i64(1));
        proof {
            lemma_quotient_sign(chars as nat, self.config);
        }
        Binary64::from_usize(chars).divided_by(per_token).round_to_i64()
    }

    /// The chunk size as a number, at least one.
    fn chunk_size(&self) -> (r: Binary64)
        ensures
            r@ == chunk_size(self@.config),
    {
        if self.config.chunk_size_tokens < 1 {
            Binary64::from_i64(1)
        } else {
            Binary64::from_usize(self.config.chunk_size_tokens)
        }
    }

    /// Converts a token backlog into chunk-equivalents.
    pub fn backlog_to_chunks(
        &self,
        tokens: i128,
        rate: Option<Binary64>,
        median_rate: Option<Binary64>,
    ) -> (r: Binary64)
        requires
            tokens <= 0x4_0000_0000_0000_0000,
        ensures
            r@ == chunks_of_tokens(
                self@.config,
                tokens as int,
                number_of(rate),
                number_of(median_rate),
            ),
    {
        let queued: i128 = if tokens < 0 {
            0
        } else {
            tokens
        };
        let base: Binary64 = Binary64::from_i128(queued).divided_by(self.chunk_size());
        match (rate, median_rate) {
            (Some(rate), Some(median)) => {
                if rate.is_positive() && median.is_positive() {
                    base.times(median.divided_by(rate))
                } else {
                    base
                }
            },
            _ => base,
        }
    }

    /// Gathers the scoring inputs of one worker.
    fn build_candidate(
        &self,
        worker: &Worker,
        index: usize,
        matched_chars: usize,
        est_tokens: i64,
        Ghost(workers): Ghost<Seq<Worker>>,
    ) -> (r: Candidate)
        requires
            workers[index as int] == *worker,
        ensures
            r@ == self@.candidate(workers, index, matched_chars, est_tokens as int),
    {
        let state: PrefillState = match self.prefill.get(worker.url.as_str()) {
            Some(state) => state,
            None => PrefillState::default(),
        };
        // The report accounts for everything the worker had queued when it was
        // taken. Add only the reservations made since that moment.
        let excess: i128 = worker.reserved_prefill_tokens as i128
            - state.reservation_baseline as i128;
        let unseen: i128 = if excess < 0 {
            0
        } else {
            excess
        };
        let backlog: i128 = state.report.waiting_uncached_tokens as i128 + unseen;
        let reported: i128 = state.report.running_reqs as i128;
        let live: i128 = worker.load as i128;
        let running: i128 = if reported > live {
            reported
        } else {
            live
        };
        let rest: i128 = est_tokens as i128 - self.chars_to_tokens(matched_chars) as i128;
        Candidate {
            index,
            backlog_chunks: self.backlog_to_chunks(
                backlog,
                state.rate_tokens_per_us,
                self.median_rate,
            ),
            matched_chars,
            new_tokens: if rest < 0 {
                0
            } else {
                rest as i64
            },
            running: Binary64::from_i128(running),
        }
    }

    /// Gathers per-worker scoring inputs for one request.
    pub fn build_candidates(
        &self,
        workers: &[Worker],
        healthy_indices: &Vec<usize>,
        info: &SelectWorkerInfo,
        est_tokens: i64,
    ) -> (r: Vec<Candidate>)
        requires
            forall|i: int|
                0 <= i < healthy_indices@.len() ==> #[trigger] healthy_indices@[i] < workers@.len(),
        ensures
            views(r@) == self@.candidates_at(workers@, healthy_indices@, *info, est_tokens as int),
    {
        let mut candidates: Vec<Candidate> = Vec::new();
        let mut i: usize = 0;
        while i < healthy_indices.len()
            invariant
                i <= healthy_indices@.len(),
                forall|k: int|
                    0 <= k < healthy_indices@.len() ==> #[trigger] healthy_indices@[k]
                        < workers@.len(),
                candidates@.len() == i,
                forall|k: int|
                    0 <= k < i ==> (#[trigger] candidates@[k])@ == self@.candidate(
                        workers@,
                        healthy_indices@[k],
                        info.matched(healthy_indices@[k] as int),
                        est_tokens as int,
                    ),
            decreases healthy_indices@.len() - i,
        {
            let index: usize = healthy_indices[i];
            let matched_chars: usize = matched_chars_at(info, index);
            let candidate: Candidate = self.build_candidate(
                &workers[index],
                index,
                matched_chars,
                est_tokens,
                Ghost(workers@),
            );
            candidates.push(candidate);
            i = i + 1;
        }
        proof {
            assert(views(candidates@) =~= self@.candidates_at(
                workers@,
                healthy_indices@,
                *info,
                est_tokens as int,
            ));
        }
        candidates
    }

    /// Whether the backlog gap between the best and the worst candidate exceeds
    /// the bound.
    pub fn is_spilling(&self, candidates: &Vec<Candidate>) -> (r: bool)
        ensures
            r == self@.spilling(views(candidates@)),
    {
        let mut lowest: Binary64 = Binary64::infinite(false);
        let mut highest: Binary64 = Binary64::infinite(true);
        let mut i: usize = 0;
        proof {
            assert(views(candidates@).take(0) =~= Seq::<CandidateModel>::empty());
        }
        while i < candidates.len()
            invariant
                i <= candidates@.len(),
                lowest@ == lowest_backlog(views(candidates@).take(i as int)),
                highest@ == highest_backlog(views(candidates@).take(i as int)),
            decreases candidates@.len() - i,
        {
            proof {
                let seen = views(candidates@).take(i + 1);
                assert(seen.drop_last() =~= views(candidates@).take(i as int));
                assert(seen.last() == candidates@[i as int]@);
            }
            lowest = lowest.min(candidates[i].backlog_chunks);
            highest = highest.max(candidates[i].backlog_chunks);
            i = i + 1;
        }
        proof {
            assert(views(candidates@).take(i as int) =~= views(candidates@));
        }
        self.config.spillover_bound_chunks.is_less_than(highest.minus(lowest))
    }

    /// The affinity credit of a candidate.
    fn credit(
        &self,
        info: &SelectWorkerInfo,
        eligible: bool,
        min_match_chars: usize,
        candidate: &Candidate,
    ) -> (r: Binary64)
        requires
            eligible == self@.is_long(*info),
            min_match_chars == self@.min_match_chars(*info),
        ensures
            r@ == self@.credit(*info, candidate@),
    {
        if eligible && candidate.matched_chars >= min_match_chars && candidate.matched_chars > 0 {
            let matched_chunks: Binary64 = Binary64::from_i64(
                self.chars_to_tokens(candidate.matched_chars),
            ).divided_by(self.chunk_size());
            self.config.prefix_affinity_credit.times(matched_chunks)
        } else {
            Binary64::zero(false)
        }
    }

    /// The scores of all candidates for one request.
    pub fn score_candidates(&self, info: &SelectWorkerInfo, candidates: &Vec<Candidate>) -> (r: Vec<
        Binary64,
    >)
        ensures
            numbers(r@) == self@.scores(*info, views(candidates@)),
    {
        let input_chars: usize = text_of(info).unicode_len();
        let spilling: bool = self.is_spilling(candidates);
        let eligible: bool = self.chars_to_tokens(input_chars) as u64
            >= self.config.long_prefill_threshold_tokens as u64;
        let min_match_chars: usize = Binary64::single_from_usize(input_chars).times_single(
            self.config.min_cache_match_rate,
        ).ceil_to_usize();
        let mut scores: Vec<Binary64> = Vec::new();
        let mut i: usize = 0;
        while i < candidates.len()
            invariant
                i <= candidates@.len(),
                spilling == self@.spilling(views(candidates@)),
                eligible == self@.is_long(*info),
                min_match_chars == self@.min_match_chars(*info),
                scores@.len() == i,
                forall|k: int|
                    0 <= k < i ==> (#[trigger] scores@[k])@ == self@.score(
                        *info,
                        candidates@[k]@,
                        spilling,
                    ),
            decreases candidates@.len() - i,
        {
            let candidate: &Candidate = &candidates[i];
            let score: Binary64 = if spilling {
                candidate.backlog_chunks
            } else {
                let load: Binary64 = self.config.load_weight.times(candidate.running);
                let work: Binary64 = self.config.prefill_work_weight.times(
                    candidate.backlog_chunks,
                );
                load.plus(work).minus(self.credit(info, eligible, min_match_chars, candidate))
            };
            scores.push(score);
            i = i + 1;
        }
        proof {
            assert(numbers(scores@) =~= self@.scores(*info, views(candidates@)));
        }
        scores
    }

    /// Picks the candidate with the lowest score, rotating among ties.
    pub fn argmin_by(&mut self, candidates: &Vec<Candidate>, scores: &Vec<Binary64>) -> (r: Option<
        Candidate,
    >)
        requires
            candidates@.len() == scores@.len(),
        ensures
            candidates@.len() == 0 ==> r is None && final(self)@ == old(self)@,
            candidates@.len() > 0 ==> {
                &&& winner(numbers(scores@), old(self)@.turn) < candidates@.len()
                &&& r == Some(
                    candidates@[winner(numbers(scores@), old(self)@.turn) as int],
                )
                &&& final(self)@ == (PolicyModel {
                    turn: next_turn(numbers(scores@), old(self)@.turn),
                    ..old(self)@
                })
            },
    {
        if candidates.len() == 0 {
            return None;
        }
        let (at, turn): (usize, usize) = pick(scores, self.tie_breaker);
        self.tie_breaker = turn;
        Some(candidates[at])
    }

    /// A policy with the default configuration.
    pub fn new() -> (r: Self)
        ensures
            r@ == PolicyModel::fresh(r@.config),
            r@.config.is_default(),
    {
        Self::with_config(ChunkAwareConfig::default())
    }

    /// A policy with the given configuration.
    pub fn with_config(config: ChunkAwareConfig) -> (r: Self)
        ensures
            r@ == PolicyModel::fresh(config),
    {
        ChunkAwarePolicy { config, prefill: PrefillStore::new(), tie_breaker: 0, median_rate: None }
    }

    /// The configuration.
    pub fn config(&self) -> (r: ChunkAwareConfig)
        ensures
            r == self@.config,
    {
        self.config
    }

    /// The prefill state kept for a worker.
    pub fn prefill_state(&self, url: &str) -> (r: Option<PrefillState>)
        ensures
            match r {
                Some(state) => self@.states.contains_key(url@) && state@ == self@.states[url@],
                None => !self@.states.contains_key(url@),
            },
    {
        self.prefill.get(url)
    }

    /// When the prefix trees are to be trimmed: not at all where the interval
    /// is zero.
    pub fn eviction_schedule(&self) -> (r: Option<EvictionSchedule>)
        ensures
            r == (if self@.config.eviction_interval_secs > 0 {
                Some(
                    EvictionSchedule {
                        interval_secs: self@.config.eviction_interval_secs,
                        max_tree_size: self@.config.max_tree_size,
                    },
                )
            } else {
                None
            }),
    {
        if self.config.eviction_interval_secs > 0 {
            Some(
                EvictionSchedule {
                    interval_secs: self.config.eviction_interval_secs,
                    max_tree_size: self.config.max_tree_size,
                },
            )
        } else {
            None
        }
    }

    /// Seeds the trees for a set of workers.
    pub fn init_workers(&self, workers: &[Worker]) -> (r: Vec<TreeAction>)
        ensures
            r@.len() == workers@.len(),
            forall|i: int|
                0 <= i < r@.len() ==> (#[trigger] r@[i]).seeds(
                    tree_key(workers@[i]),
                    workers@[i].url@,
                ),
    {
        let mut actions: Vec<TreeAction> = Vec::new();
        let mut i: usize = 0;
        while i < workers.len()
            invariant
                i <= workers@.len(),
                actions@.len() == i,
                forall|k: int|
                    0 <= k < i ==> (#[trigger] actions@[k]).seeds(
                        tree_key(workers@[k]),
                        workers@[k].url@,
                    ),
            decreases workers@.len() - i,
        {
            let action: TreeAction = self.add_worker(&workers[i]);
            actions.push(action);
            i = i + 1;
        }
        actions
    }

    /// Makes a worker a tenant of its tree.
    pub fn add_worker(&self, worker: &Worker) -> (r: TreeAction)
        ensures
            r.seeds(tree_key(*worker), worker.url@),
    {
        TreeAction::Seed { key: tree_key_for_worker(worker), url: worker.url.clone() }
    }

    /// Forgets a worker's state, and takes it out of its tree.
    pub fn remove_worker(&mut self, worker: &Worker) -> (r: TreeAction)
        ensures
            final(self)@ == old(self)@.without(worker.url@),
            r.forgets(tree_key(*worker), worker.url@),
    {
        self.prefill.remove(worker.url.as_str());
        TreeAction::Forget { key: tree_key_for_worker(worker), url: worker.url.clone() }
    }

    /// Forgets a worker's state, and takes it out of all trees.
    pub fn remove_worker_by_url(&mut self, url: &str) -> (r: TreeAction)
        ensures
            final(self)@ == old(self)@.without(url@),
            r.forgets_everywhere(url@),
    {
        self.prefill.remove(url);
        TreeAction::ForgetEverywhere { url: url.to_owned() }
    }

    /// The key of the tree that holds the prefixes of the next request: that of
    /// the first available worker.
    pub fn request_tree_key(&self, workers: &[Worker]) -> (r: Option<String>)
        ensures
            match r {
                Some(key) => healthy_indices(workers@).len() > 0 && key@ == tree_key(
                    workers@[healthy_indices(workers@)[0] as int],
                ),
                None => healthy_indices(workers@).len() == 0,
            },
    {
        let indices: Vec<usize> = get_healthy_worker_indices(workers);
        let count: usize = workers.len();
        proof {
            assert(workers@.len() == count);
            lemma_healthy_indices(workers@);
        }
        if indices.len() == 0 {
            None
        } else {
            let first: usize = indices[0];
            assert(first == healthy_indices(workers@)[0]);
            Some(tree_key_for_worker(&workers[first]))
        }
    }

    /// Places a request: selects the worker, and says what the request does to
    /// the prefix trees and on which worker it is counted. Without an available
    /// worker it is counted on none.
    pub fn place(&mut self, workers: &[Worker], info: &SelectWorkerInfo) -> (r: Option<Dispatch>)
        ensures
            final(self)@ == old(self)@.after_selection(workers@, *info),
            match r {
                Some(dispatch) => {
                    &&& old(self)@.selection(workers@, *info) == Some(dispatch.selection)
                    &&& dispatch.selection.index < workers@.len()
                    &&& dispatch.processed == dispatch.selection.index
                    &&& dispatch.record is Some <==> (info.prefix_matches is Some
                        && info.text().len() > 0)
                    &&& dispatch.record matches Some(action) ==> action.records(
                        tree_key(workers@[healthy_indices(workers@)[0] as int]),
                        workers@[dispatch.selection.index as int].url@,
                    )
                },
                None => old(self)@.selection(workers@, *info) is None,
            },
            forall|counts: Seq<nat>, i: int|
                counts.len() == workers@.len() && 0 <= i < counts.len()
                    ==> #[trigger] counts_after(counts, r)[i] == counts[i] + (
                if old(self)@.selection(workers@, *info) matches Some(selection)
                    && selection.index == i {
                    1nat
                } else {
                    0nat
                }),
    {
        let indices: Vec<usize> = get_healthy_worker_indices(workers);
        let count: usize = workers.len();
        proof {
            assert(workers@.len() == count);
            lemma_healthy_indices(workers@);
            assert forall|i: int| 0 <= i < indices@.len() implies #[trigger] indices@[i]
                < workers@.len() by {
                assert(healthy_indices(workers@)[i] == indices@[i]);
            }
        }
        if indices.len() == 0 {
            return None;
        }
        let text: &str = text_of(info);
        let est_tokens: i64 = self.chars_to_tokens(text.unicode_len());
        let candidates: Vec<Candidate> = self.build_candidates(workers, &indices, info, est_tokens);
        proof {
            assert(views(candidates@).len() == indices@.len());
        }
        let scores: Vec<Binary64> = self.score_candidates(info, &candidates);
        proof {
            assert(numbers(scores@).len() == views(candidates@).len());
        }
        let chosen: Candidate = match self.argmin_by(&candidates, &scores) {
            Some(chosen) => chosen,
            None => {
                return None;
            },
        };
        let ghost at = winner(numbers(scores@), old(self)@.turn) as int;
        proof {
            assert(views(candidates@)[at] == chosen@);
            assert(indices@[at] == chosen.index);
        }
        let record: Option<TreeAction> = if info.prefix_matches.is_some() && !text.is_empty() {
            let first: usize = indices[0];
            Some(
                TreeAction::Record {
                    key: tree_key_for_worker(&workers[first]),
                    url: workers[chosen.index].url.clone(),
                },
            )
        } else {
            None
        };
        Some(
            Dispatch {
                selection: WorkerSelection {
                    index: chosen.index,
                    // A matched prefix costs no prefill: only the uncached
                    // remainder is reserved.
                    reserved_prefill_tokens: chosen.new_tokens,
                },
                record,
                processed: chosen.index,
            },
        )
    }
}

impl Default for ChunkAwarePolicy {
    fn default() -> (r: Self)
        ensures
            r@ == PolicyModel::fresh(r@.config),
            r@.config.is_default(),
    {
        Self::new()
    }
}

impl TreeAction {
    /// Whether this makes the worker at `url` a tenant of the tree at `key`.
    pub open spec fn seeds(self, key: Seq<char>, url: Seq<char>) -> bool {
        self matches TreeAction::Seed { key: k, url: u } && k@ == key && u@ == url
    }

    /// Whether this records the request text for the worker at `url`.
    pub open spec fn records(self, key: Seq<char>, url: Seq<char>) -> bool {
        self matches TreeAction::Record { key: k, url: u } && k@ == key && u@ == url
    }

    /// Whether this takes the worker at `url` out of the tree at `key`.
    pub open spec fn forgets(self, key: Seq<char>, url: Seq<char>) -> bool {
        self matches TreeAction::Forget { key: k, url: u } && k@ == key && u@ == url
    }

    /// Whether this takes the worker at `url` out of all trees.
    pub open spec fn forgets_everywhere(self, url: Seq<char>) -> bool {
        self matches TreeAction::ForgetEverywhere { url: u } && u@ == url
    }
}

/// The reservation counter of the worker at `url`, zero where there is none.
fn reservation_at(workers: &[Worker], url: &String) -> (r: i64)
    ensures
        r == reservation_of(workers@, url@),
{
    let mut i: usize = 0;
    proof {
        assert(workers@.skip(0) =~= workers@);
    }
    while i < workers.len()
        invariant
            i <= workers@.len(),
            reservation_of(workers@, url@) == reservation_of(workers@.skip(i as int), url@),
        decreases workers@.len() - i,
    {
        proof {
            assert(workers@.skip(i as int).drop_first() =~= workers@.skip(i + 1));
        }
        if workers[i].url == *url {
            return workers[i].reserved_prefill_tokens;
        }
        i = i + 1;
    }
    0
}

impl LoadBalancingPolicy for ChunkAwarePolicy {
    open spec fn reserves(&self) -> bool {
        true
    }

    open spec fn may_select(
        &self,
        workers: Seq<Worker>,
        info: SelectWorkerInfo,
        choice: Option<usize>,
        after: Self,
    ) -> bool {
        &&& choice == (match self@.selection(workers, info) {
            Some(selection) => Some(selection.index),
            None => None,
        })
        &&& after@ == self@.after_selection(workers, info)
    }

    fn select_worker(&mut self, workers: &[Worker], info: &SelectWorkerInfo) -> (r: Option<usize>)
        ensures
            final(self)@ == old(self)@.after_selection(workers@, *info),
            match r {
                Some(index) => old(self)@.selection(workers@, *info) matches Some(selection)
                    && selection.index == index,
                None => old(self)@.selection(workers@, *info) is None,
            },
    {
        match self.select_worker_detailed(workers, info) {
            Some(selection) => Some(selection.index),
            None => None,
        }
    }

    /// Selects as `place` does, leaving out what it says of the trees and of the
    /// count.
    fn select_worker_detailed(&mut self, workers: &[Worker], info: &SelectWorkerInfo) -> (r: Option<
        WorkerSelection,
    >)
        ensures
            final(self)@ == old(self)@.after_selection(workers@, *info),
            r == old(self)@.selection(workers@, *info),
    {
        match self.place(workers, info) {
            Some(dispatch) => Some(dispatch.selection),
            None => None,
        }
    }

    fn name(&self) -> (r: &'static str)
        ensures
            r@ == "chunk_aware"@,
    {
        "chunk_aware"
    }

    fn needs_request_text(&self) -> (r: bool)
        ensures
            r,
    {
        true
    }

    fn needs_load_updates(&self) -> (r: bool)
        ensures
            r,
    {
        true
    }

    fn load_check_interval_secs(&self) -> (r: Option<u64>)
        ensures
            r == Some(self@.config.load_check_interval_secs),
    {
        Some(self.config.load_check_interval_secs)
    }

    fn update_prefill_loads(&mut self, workers: &[Worker], reports: &KeyedList<PrefillLoadReport>)
        ensures
            final(self)@ == old(self)@.polled(workers@, reports@),
            final(self)@.median matches Some(rate) ==> is_median(final(self)@.states, rate),
            old(self)@.is_sound() ==> final(self)@.is_sound(),
    {
        let mut i: usize = 0;
        let count: usize = reports.len();
        let ghost before = self@;
        proof {
            assert(reports.entries().take(0) =~= Seq::empty());
            assert(self@.states =~= polled_states(
                before.states,
                workers@,
                by_key(reports.entries().take(0)),
            ));
        }
        while i < count
            invariant
                i <= count == reports.entries().len(),
                reports@ == by_key(reports.entries()),
                self@.config == before.config,
                self@.turn == before.turn,
                self@.states == polled_states(
                    before.states,
                    workers@,
                    by_key(reports.entries().take(i as int)),
                ),
            decreases count - i,
        {
            let (url, report): (&String, &PrefillLoadReport) = reports.entry(i);
            // Snapshot the reservation counter alongside the report, so that the
            // two describe the same instant.
            let baseline: i64 = reservation_at(workers, url);
            let mut state: PrefillState = match self.prefill.get(url.as_str()) {
                Some(state) => state,
                None => PrefillState::default(),
            };
            let ghost states = self@.states;
            state.observe(*report);
            state.reservation_baseline = baseline;
            self.prefill.put(url.clone(), state);
            proof {
                let seen = reports.entries().take(i + 1);
                let earlier = reports.entries().take(i as int);
                assert(seen.drop_last() =~= earlier);
                assert(seen.last() == reports.entries()[i as int]);
                assert(self@.states =~= polled_states(before.states, workers@, by_key(seen)));
            }
            i = i + 1;
        }
        proof {
            assert(reports.entries().take(i as int) =~= reports.entries());
        }
        self.median_rate = self.prefill.median_rate();
        proof {
            if before.is_sound() {
                assert forall|url: Seq<char>| #[trigger]
                    self@.states.contains_key(url) implies self@.states[url].is_sound() by {
                    if reports@.contains_key(url) {
                        law_rates_stay_sound(state_of(before.states, url), reports@[url]);
                    }
                }
                if let Some(rate) = self@.median {
                    let url = choose|url: Seq<char>| #[trigger]
                        rated(self@.states).contains(url) && rate_of(self@.states, url) == rate;
                    assert(self@.states.contains_key(url));
                }
            }
        }
    }

    fn reset(&mut self)
        ensures
            final(self)@ == PolicyModel::fresh(old(self)@.config),
    {
        self.prefill.clear();
        self.median_rate = None;
        self.tie_breaker = 0;
    }
}

/// The values of a list of candidates.
pub open spec fn views(candidates: Seq<Candidate>) -> Seq<CandidateModel> {
    Seq::new(candidates.len(), |i: int| candidates[i]@)
}

/// The request text, empty where there is none.
fn text_of<'a>(info: &SelectWorkerInfo<'a>) -> (r: &'a str)
    ensures
        r@ == info.text(),
{
    match info.request_text {
        Some(text) => text,
        None => {
            proof {
                reveal_strlit("");
                assert(""@ =~= Seq::<char>::empty());
            }
            ""
        },
    }
}

/// Characters of the request that the worker at `index` holds.
fn matched_chars_at(info: &SelectWorkerInfo, index: usize) -> (r: usize)
    ensures
        r == info.matched(index as int),
{
    match info.prefix_matches {
        Some(matches) => {
            if !text_of(info).is_empty() && index < matches.len() {
                matches[index]
            } else {
                0
            }
        },
        None => 0,
    }
}

} // verus!
