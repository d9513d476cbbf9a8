//! What the router knows of a worker when it routes a request.
use crate::text::join;
use vstd::prelude::*;
use vstd::string::*;

verus! {

/// The model name that stands for workers which name no model.
pub const UNKNOWN_MODEL_ID: &'static str = "unknown";

/// The pool that a worker serves in.
#[derive(Clone, Copy, Debug, PartialEq, Eq, Structural)]
pub enum WorkerType {
    /// Prefill and decode on one worker.
    Regular,
    /// Prefill only.
    Prefill,
    /// Decode only.
    Decode,
}

/// How a worker is reached.
#[derive(Clone, Copy, Debug, PartialEq, Eq, Structural)]
pub enum ConnectionMode {
    Http,
    Grpc,
}

/// The state of one worker at the moment of a decision.
#[derive(Clone, Debug)]
pub struct Worker {
    pub url: String,
    pub model_id: String,
    pub api_key: Option<String>,
    pub worker_type: WorkerType,
    pub connection_mode: ConnectionMode,
    /// The outcome of the last health check.
    pub healthy: bool,
    /// Whether the worker's circuit breaker lets requests through.
    pub can_execute: bool,
    /// Requests that this router has in flight on the worker.
    pub load: usize,
    /// Uncached prefill tokens that this router has dispatched to the worker
    /// and whose responses have not completed.
    pub reserved_prefill_tokens: i64,
}

impl Worker {
    /// Whether requests may be routed to the worker.
    pub open spec fn available(&self) -> bool {
        self.healthy && self.can_execute
    }

    /// A healthy worker of the regular pool, reached over HTTP, with nothing
    /// in flight.
    pub fn new(url: &str) -> (r: Worker)
        ensures
            r.url@ == url@,
            r.model_id@ == Seq::<char>::empty(),
            r.api_key is None,
            r.worker_type == WorkerType::Regular,
            r.connection_mode == ConnectionMode::Http,
            r.available(),
            r.load == 0,
            r.reserved_prefill_tokens == 0,
    {
        Worker {
            url: url.to_owned(),
            model_id: String::new(),
            api_key: None,
            worker_type: WorkerType::Regular,
            connection_mode: ConnectionMode::Http,
            healthy: true,
            can_execute: true,
            load: 0,
            reserved_prefill_tokens: 0,
        }
    }

    /// Whether requests may be routed to the worker.
    pub fn is_available(&self) -> (r: bool)
        ensures
            r == self.available(),
    {
        self.healthy && self.can_execute
    }

    /// Adds `delta` tokens to the reservation, or releases them where `delta`
    /// is negative. A release never drives the reservation below zero.
    pub fn add_reserved_prefill_tokens(&mut self, delta: i64)
        ensures
            *final(self) == (Worker {
                reserved_prefill_tokens: reservation_after(
                    old(self).reserved_prefill_tokens,
                    delta,
                ),
                ..*old(self)
            }),
    {
        let total: i128 = self.reserved_prefill_tokens as i128 + delta as i128;
        self.reserved_prefill_tokens = if total < 0 {
            0
        } else if total > i64::MAX as i128 {
            i64::MAX
        } else {
            total as i64
        };
    }
}

/// A reservation of `reserved` tokens after `delta` were added: at least zero,
/// and at most what the counter can hold.
pub open spec fn reservation_after(reserved: i64, delta: i64) -> i64 {
    let total = reserved + delta;
    if total < 0 {
        0
    } else if total > i64::MAX {
        i64::MAX
    } else {
        total as i64
    }
}

/// The indices of the available workers, in ascending order.
pub open spec fn healthy_indices(workers: Seq<Worker>) -> Seq<usize>
    decreases workers.len(),
{
    if workers.len() == 0 {
        Seq::empty()
    } else {
        let before = healthy_indices(workers.drop_last());
        if workers.last().available() {
            before.push((workers.len() - 1) as usize)
        } else {
            before
        }
    }
}

/// The indices of the workers that requests may be routed to.
pub fn get_healthy_worker_indices(workers: &[Worker]) -> (r: Vec<usize>)
    ensures
        r@ == healthy_indices(workers@),
{
    let mut indices: Vec<usize> = Vec::new();
    let mut i: usize = 0;
    proof {
        assert(workers@.take(0) =~= Seq::<Worker>::empty());
    }
    while i < workers.len()
        invariant
            i <= workers@.len(),
            indices@ == healthy_indices(workers@.take(i as int)),
        decreases workers@.len() - i,
    {
        proof {
            assert(workers@.take(i + 1).drop_last() =~= workers@.take(i as int));
        }
        if workers[i].is_available() {
            indices.push(i);
        }
        i = i + 1;
    }
    proof {
        assert(workers@.take(i as int) =~= workers@);
    }
    indices
}

/// `get_healthy_worker_indices` lists exactly the available workers, each once
/// and in ascending order.
pub proof fn lemma_healthy_indices(workers: Seq<Worker>)
    requires
        workers.len() <= usize::MAX,
    ensures
        forall|i: int|
            #![trigger healthy_indices(workers)[i]]
            0 <= i < healthy_indices(workers).len() ==> {
                let index = healthy_indices(workers)[i];
                index < workers.len() && workers[index as int].available()
            },
        forall|i: int, j: int|
            #![trigger healthy_indices(workers)[i], healthy_indices(workers)[j]]
            0 <= i < j < healthy_indices(workers).len() ==> healthy_indices(workers)[i]
                < healthy_indices(workers)[j],
        forall|w: int|
            0 <= w < workers.len() && #[trigger] workers[w].available() ==> healthy_indices(
                workers,
            ).contains(w as usize),
    decreases workers.len(),
{
    if workers.len() > 0 {
        let before = workers.drop_last();
        lemma_healthy_indices(before);
        assert forall|w: int|
            0 <= w < workers.len() && #[trigger] workers[w].available() implies healthy_indices(
            workers,
        ).contains(w as usize) by {
            if w < before.len() {
                assert(before[w].available());
                let at = choose|k: int|
                    0 <= k < healthy_indices(before).len() && healthy_indices(before)[k] == w as usize;
                assert(healthy_indices(workers)[at] == w as usize);
            } else {
                assert(healthy_indices(workers).last() == w as usize);
            }
        }
        assert forall|i: int|
            #![trigger healthy_indices(workers)[i]]
            0 <= i < healthy_indices(workers).len() implies {
            let index = healthy_indices(workers)[i];
            index < workers.len() && workers[index as int].available()
        } by {
            if i < healthy_indices(before).len() {
                assert(healthy_indices(before)[i] == healthy_indices(workers)[i]);
                assert(before[healthy_indices(before)[i] as int].available());
            }
        }
        assert forall|i: int, j: int|
            #![trigger healthy_indices(workers)[i], healthy_indices(workers)[j]]
            0 <= i < j < healthy_indices(workers).len() implies healthy_indices(workers)[i]
            < healthy_indices(workers)[j] by {
            assert(healthy_indices(before)[i] == healthy_indices(workers)[i]);
            if j < healthy_indices(before).len() {
                assert(healthy_indices(before)[j] == healthy_indices(workers)[j]);
            }
        }
    }
}

/// The model name under which policies look a worker up.
pub open spec fn model_key(model_id: Seq<char>) -> Seq<char> {
    if model_id.len() == 0 {
        UNKNOWN_MODEL_ID@
    } else {
        model_id
    }
}

/// The model name under which policies look a worker up: its own, or
/// [`UNKNOWN_MODEL_ID`] where it names none.
pub fn normalize_model_key(model_id: &str) -> (r: &str)
    ensures
        r@ == model_key(model_id@),
{
    if model_id.is_empty() {
        UNKNOWN_MODEL_ID
    } else {
        model_id
    }
}

/// The name of a pool.
pub open spec fn pool_name(worker_type: WorkerType) -> Seq<char> {
    match worker_type {
        WorkerType::Regular => "regular"@,
        WorkerType::Prefill => "prefill"@,
        WorkerType::Decode => "decode"@,
    }
}

/// The name of a pool.
pub fn pool_tag(worker_type: &WorkerType) -> (r: &'static str)
    ensures
        r@ == pool_name(*worker_type),
{
    match worker_type {
        WorkerType::Regular => "regular",
        WorkerType::Prefill => "prefill",
        WorkerType::Decode => "decode",
    }
}

/// The key of the prefix tree that a worker belongs to: `pool::model`.
pub open spec fn tree_key(worker: Worker) -> Seq<char> {
    pool_name(worker.worker_type) + "::"@ + model_key(worker.model_id@)
}

/// The key of the prefix tree that a worker belongs to: `pool::model`, so that
/// the pools cannot evict each other's tenants.
pub fn tree_key_for_worker(worker: &Worker) -> (r: String)
    ensures
        r@ == tree_key(*worker),
{
    let mut key: String = join(pool_tag(&worker.worker_type), "::");
    key.append(normalize_model_key(worker.model_id.as_str()));
    key
}

} // verus!
