//! What the router asks of its workers, and what it makes of their answers.
//!
//! The functions here decide which requests go out and turn the outcomes into
//! results; sending is left to the caller.
use crate::json::json_document;
use crate::keyed::KeyedList;
use crate::loads::{
    load_entries, parse_load, parse_prefill_load, report_of, scalar_load, total_tokens, totals_fit,
    LoadTotalOverflow, UNKNOWN_LOAD,
};
use crate::policy::PrefillLoadReport;
use crate::status::{is_status, is_success, status_is_success, status_text, status_to_text};
use crate::tallies::law_known_loads_are_those_not_negative;
use crate::text::{decimal, join, write_decimal};
use crate::worker::{ConnectionMode, Worker, WorkerType};
use vstd::prelude::*;
use vstd::string::*;

verus! {

/// How long a request to a worker may take, in seconds.
pub const REQUEST_TIMEOUT_SECS: u64 = 5;

/// How many requests of one fan-out are in flight at a time.
pub const MAX_CONCURRENT: usize = 32;

/// The method of a request.
#[derive(Debug, Clone, Copy, PartialEq, Eq, Structural)]
pub enum RequestMethod {
    Get,
    Post,
}

/// A request to one worker.
#[derive(Debug)]
pub struct WorkerRequest {
    /// The worker's URL.
    pub worker: String,
    pub method: RequestMethod,
    /// The URL to send the request to.
    pub address: String,
    /// The token to authenticate with.
    pub bearer: Option<String>,
}

/// How a request to a worker ended. A body that could not be read is `None`.
#[derive(Debug)]
pub enum Outcome<B> {
    Answered { status: u16, body: Option<B> },
    Failed { error: String },
}

/// The outcome of the request to one worker.
#[derive(Debug)]
pub struct WorkerReply<B> {
    pub url: String,
    pub outcome: Outcome<B>,
}

/// The texts of a list of strings.
pub open spec fn texts(strings: Seq<String>) -> Seq<Seq<char>> {
    Seq::new(strings.len(), |i: int| strings[i]@)
}

/// The texts of a list of pairs of strings.
pub open spec fn text_pairs(pairs: Seq<(String, String)>) -> Seq<(Seq<char>, Seq<char>)> {
    Seq::new(pairs.len(), |i: int| (pairs[i].0@, pairs[i].1@))
}

/// The text of an optional string.
pub open spec fn optional_text(string: Option<String>) -> Option<Seq<char>> {
    match string {
        Some(string) => Some(string@),
        None => None,
    }
}

impl WorkerRequest {
    /// Whether this asks `worker` for `endpoint`, by the given method and with the
    /// worker's own key.
    pub open spec fn asks(
        self,
        worker: Worker,
        method: RequestMethod,
        endpoint: Seq<char>,
    ) -> bool {
        &&& self.worker@ == worker.url@
        &&& self.method == method
        &&& self.address@ == worker.url@ + "/"@ + endpoint
        &&& optional_text(self.bearer) == optional_text(worker.api_key)
    }
}

/// The request that asks `worker` for `endpoint`.
pub fn request_to(worker: &Worker, method: RequestMethod, endpoint: &str) -> (r: WorkerRequest)
    ensures
        r.asks(*worker, method, endpoint@),
{
    let mut address: String = join(worker.url.as_str(), "/");
    address.append(endpoint);
    WorkerRequest {
        worker: worker.url.clone(),
        method,
        address,
        bearer: match &worker.api_key {
            Some(key) => Some(key.clone()),
            None => None,
        },
    }
}

/// The workers that are reached over HTTP, in order.
pub open spec fn http_workers(workers: Seq<Worker>) -> Seq<Worker>
    decreases workers.len(),
{
    if workers.len() == 0 {
        Seq::empty()
    } else if workers.last().connection_mode == ConnectionMode::Http {
        http_workers(workers.drop_last()).push(workers.last())
    } else {
        http_workers(workers.drop_last())
    }
}

/// Whether the requests ask the given workers for `endpoint`, one each.
pub open spec fn ask_all(
    requests: Seq<WorkerRequest>,
    workers: Seq<Worker>,
    method: RequestMethod,
    endpoint: Seq<char>,
) -> bool {
    &&& requests.len() == workers.len()
    &&& forall|i: int|
        0 <= i < requests.len() ==> (#[trigger] requests[i]).asks(workers[i], method, endpoint)
}

/// How many workers are reached over HTTP.
fn count_http(workers: &[Worker]) -> (r: usize)
    ensures
        r == http_workers(workers@).len(),
{
    let mut count: usize = 0;
    let mut i: usize = 0;
    proof {
        assert(workers@.take(0) =~= Seq::<Worker>::empty());
    }
    while i < workers.len()
        invariant
            i <= workers@.len(),
            count == http_workers(workers@.take(i as int)).len(),
            count <= i,
        decreases workers@.len() - i,
    {
        proof {
            let seen = workers@.take(i + 1);
            assert(seen.drop_last() =~= workers@.take(i as int));
            assert(seen.last() == workers@[i as int]);
        }
        if workers[i].connection_mode == ConnectionMode::Http {
            count = count + 1;
        }
        i = i + 1;
    }
    proof {
        assert(workers@.take(i as int) =~= workers@);
    }
    count
}

/// Requests to all workers that are reached over HTTP.
pub fn http_requests(workers: &[Worker], method: RequestMethod, endpoint: &str) -> (r: Vec<
    WorkerRequest,
>)
    ensures
        ask_all(r@, http_workers(workers@), method, endpoint@),
{
    let mut requests: Vec<WorkerRequest> = Vec::new();
    let mut i: usize = 0;
    proof {
        assert(workers@.take(0) =~= Seq::<Worker>::empty());
    }
    while i < workers.len()
        invariant
            i <= workers@.len(),
            ask_all(requests@, http_workers(workers@.take(i as int)), method, endpoint@),
        decreases workers@.len() - i,
    {
        proof {
            let seen = workers@.take(i + 1);
            assert(seen.drop_last() =~= workers@.take(i as int));
            assert(seen.last() == workers@[i as int]);
        }
        if workers[i].connection_mode == ConnectionMode::Http {
            let request: WorkerRequest = request_to(&workers[i], method, endpoint);
            requests.push(request);
        }
        i = i + 1;
    }
    proof {
        assert(workers@.take(i as int) =~= workers@);
    }
    requests
}

/// Requests to all workers.
pub fn requests_to_all(workers: &[Worker], method: RequestMethod, endpoint: &str) -> (r: Vec<
    WorkerRequest,
>)
    ensures
        ask_all(r@, workers@, method, endpoint@),
{
    let mut requests: Vec<WorkerRequest> = Vec::new();
    let mut i: usize = 0;
    while i < workers.len()
        invariant
            i <= workers@.len(),
            requests@.len() == i,
            forall|k: int|
                0 <= k < i ==> (#[trigger] requests@[k]).asks(workers@[k], method, endpoint@),
        decreases workers@.len() - i,
    {
        let request: WorkerRequest = request_to(&workers[i], method, endpoint);
        requests.push(request);
        i = i + 1;
    }
    requests
}

/// The outcome of a cache flush.
#[derive(Debug)]
pub struct FlushCacheResult {
    /// The workers that flushed their cache.
    pub successful: Vec<String>,
    /// The workers that did not, with the reason.
    pub failed: Vec<(String, String)>,
    pub total_workers: usize,
    pub http_workers: usize,
    pub message: String,
}

/// Whether an outcome is an answer with a status of success.
pub open spec fn succeeded<B>(outcome: Outcome<B>) -> bool {
    outcome matches Outcome::Answered { status, .. } && is_success(status)
}

/// Why a request failed.
pub open spec fn failure<B>(outcome: Outcome<B>) -> Seq<char> {
    match outcome {
        Outcome::Answered { status, .. } => "HTTP "@ + status_text(status),
        Outcome::Failed { error } => error@,
    }
}

/// The workers that answered with success, in the order of the replies.
pub open spec fn successes<B>(replies: Seq<WorkerReply<B>>) -> Seq<Seq<char>>
    decreases replies.len(),
{
    if replies.len() == 0 {
        Seq::empty()
    } else {
        let before = successes(replies.drop_last());
        if succeeded(replies.last().outcome) {
            before.push(replies.last().url@)
        } else {
            before
        }
    }
}

/// The workers that did not, with the reason, in the order of the replies.
pub open spec fn failures<B>(replies: Seq<WorkerReply<B>>) -> Seq<(Seq<char>, Seq<char>)>
    decreases replies.len(),
{
    if replies.len() == 0 {
        Seq::empty()
    } else {
        let before = failures(replies.drop_last());
        if succeeded(replies.last().outcome) {
            before
        } else {
            before.push((replies.last().url@, failure(replies.last().outcome)))
        }
    }
}

/// Whether all answers carry a status code.
pub open spec fn statuses_valid<B>(replies: Seq<WorkerReply<B>>) -> bool {
    forall|i: int|
        0 <= i < replies.len() ==> ((#[trigger] replies[i]).outcome matches Outcome::Answered {
            status,
            ..
        } ==> is_status(status))
}

/// The summary of a cache flush.
pub open spec fn flush_message(successful: nat, failed: nat) -> Seq<char> {
    if failed == 0 {
        "Successfully flushed cache on all "@ + decimal(successful) + " HTTP workers"@
    } else {
        "Cache flush: "@ + decimal(successful) + " succeeded, "@ + decimal(failed) + " failed"@
    }
}

fn write_flush_message(successful: usize, failed: usize) -> (r: String)
    ensures
        r@ == flush_message(successful as nat, failed as nat),
{
    let counted: String = write_decimal(successful as u64);
    if failed == 0 {
        let mut message: String = join("Successfully flushed cache on all ", counted.as_str());
        message.append(" HTTP workers");
        message
    } else {
        let mut message: String = join("Cache flush: ", counted.as_str());
        message.append(" succeeded, ");
        message.append(write_decimal(failed as u64).as_str());
        message.append(" failed");
        message
    }
}

/// Whether a request succeeded.
fn has_succeeded<B>(outcome: &Outcome<B>) -> (r: bool)
    ensures
        r == succeeded(*outcome),
{
    match outcome {
        Outcome::Answered { status, .. } => status_is_success(*status),
        Outcome::Failed { .. } => false,
    }
}

/// Why a request failed.
fn describe_failure<B>(outcome: &Outcome<B>) -> (r: String)
    requires
        *outcome matches Outcome::Answered { status, .. } ==> is_status(status),
    ensures
        r@ == failure(*outcome),
{
    match outcome {
        Outcome::Answered { status, .. } => join("HTTP ", status_to_text(*status).as_str()),
        Outcome::Failed { error } => error.clone(),
    }
}

/// The metrics of one worker, to be labelled and merged with the others.
#[derive(Debug)]
pub struct MetricPack {
    pub labels: Vec<(String, String)>,
    pub metrics_text: String,
}

/// The merged metrics of all workers, or why there are none.
#[derive(Debug)]
pub enum EngineMetricsResult {
    Metrics(String),
    Failure(String),
}

impl EngineMetricsResult {
    /// Whether this is the failure with the given message.
    pub open spec fn fails_with(self, message: Seq<char>) -> bool {
        self matches EngineMetricsResult::Failure(text) && text@ == message
    }

    /// The status code and the body of the response.
    pub fn into_response(self) -> (r: (u16, String))
        ensures
            match self {
                EngineMetricsResult::Metrics(text) => r == (200u16, text),
                EngineMetricsResult::Failure(message) => r == (500u16, message),
            },
    {
        match self {
            EngineMetricsResult::Metrics(text) => (200, text),
            EngineMetricsResult::Failure(message) => (500, message),
        }
    }
}

/// The reported load of one worker; -1 where it is unknown.
#[derive(Debug)]
pub struct WorkerLoadInfo {
    pub worker: String,
    pub worker_type: Option<String>,
    pub load: isize,
}

/// The reported loads of all workers.
#[derive(Debug)]
pub struct WorkerLoadsResult {
    pub loads: Vec<WorkerLoadInfo>,
    pub total_workers: usize,
    pub successful: usize,
    pub failed: usize,
}

/// The pool that a load report names; regular workers are left unnamed.
pub open spec fn pool_label(worker_type: WorkerType) -> Option<Seq<char>> {
    match worker_type {
        WorkerType::Regular => None,
        WorkerType::Prefill => Some("prefill"@),
        WorkerType::Decode => Some("decode"@),
    }
}

/// The scalar load that the outcome of a load request gives.
pub open spec fn load_from(outcome: Outcome<Vec<u8>>) -> isize {
    match outcome {
        Outcome::Answered { status, body: Some(body) } => if is_success(status) {
            match json_document(body@) {
                Some(document) => scalar_load(total_tokens(document)),
                None => UNKNOWN_LOAD,
            }
        } else {
            UNKNOWN_LOAD
        },
        _ => UNKNOWN_LOAD,
    }
}

impl WorkerLoadInfo {
    /// Whether this tells the load of `worker`, given the outcome of its load
    /// request.
    pub open spec fn tells(self, worker: Worker, outcome: Option<Outcome<Vec<u8>>>) -> bool {
        &&& self.worker@ == worker.url@
        &&& optional_text(self.worker_type) == pool_label(worker.worker_type)
        &&& self.load == (match outcome {
            Some(outcome) => if worker.connection_mode == ConnectionMode::Http {
                load_from(outcome)
            } else {
                UNKNOWN_LOAD
            },
            None => UNKNOWN_LOAD,
        })
    }
}

/// How many loads are known.
pub open spec fn known_loads(loads: Seq<WorkerLoadInfo>) -> nat
    decreases loads.len(),
{
    if loads.len() == 0 {
        0
    } else {
        known_loads(loads.drop_last()) + if loads.last().load >= 0 {
            1nat
        } else {
            0
        }
    }
}

/// The prefill report that the outcome of a load request gives; nothing where
/// the request failed or the document lists no rank.
pub open spec fn prefill_from(outcome: Outcome<Vec<u8>>) -> Option<PrefillLoadReport> {
    match outcome {
        Outcome::Answered { status, body: Some(body) } => if is_success(status) {
            match json_document(body@) {
                Some(document) => report_of(load_entries(document)),
                None => None,
            }
        } else {
            None
        },
        _ => None,
    }
}

/// Whether the sums of the document, if one came, fit.
pub open spec fn prefill_fits(outcome: Outcome<Vec<u8>>) -> bool {
    match outcome {
        Outcome::Answered { status, body: Some(body) } => is_success(status) ==> (json_document(
            body@,
        ) matches Some(document) ==> totals_fit(load_entries(document))),
        _ => true,
    }
}

/// Whether the sums of a worker's document, if one was asked for and came, fit.
pub open spec fn all_fit(worker: Worker, outcome: Option<Outcome<Vec<u8>>>) -> bool {
    worker.connection_mode == ConnectionMode::Http ==> (outcome matches Some(outcome)
        ==> prefill_fits(outcome))
}

/// The reports by worker; where a worker occurs twice, the later report stands.
pub open spec fn reports_by_worker(
    workers: Seq<Worker>,
    outcomes: Seq<Option<Outcome<Vec<u8>>>>,
) -> Map<Seq<char>, PrefillLoadReport>
    decreases workers.len(),
{
    if workers.len() == 0 {
        Map::empty()
    } else {
        let before = reports_by_worker(workers.drop_last(), outcomes.drop_last());
        match outcomes.last() {
            Some(outcome) => match prefill_from(outcome) {
                Some(report) => if workers.last().connection_mode == ConnectionMode::Http {
                    before.insert(workers.last().url@, report)
                } else {
                    before
                },
                None => before,
            },
            None => before,
        }
    }
}

/// The workers whose metrics were read, with their texts, in the order of the
/// replies.
pub open spec fn metrics_read(replies: Seq<WorkerReply<String>>) -> Seq<(Seq<char>, Seq<char>)>
    decreases replies.len(),
{
    if replies.len() == 0 {
        Seq::empty()
    } else {
        let before = metrics_read(replies.drop_last());
        match replies.last().outcome {
            Outcome::Answered { status, body: Some(text) } => if is_success(status) {
                before.push((replies.last().url@, text@))
            } else {
                before
            },
            _ => before,
        }
    }
}

/// Whether a pack holds the metrics text of the worker at `url`, labelled with
/// that URL.
pub open spec fn is_pack_of(pack: MetricPack, read: (Seq<char>, Seq<char>)) -> bool {
    &&& pack.metrics_text@ == read.1
    &&& text_pairs(pack.labels@) == seq![("worker_addr"@, read.0)]
}

/// Whether the packs hold the metrics of the given workers, in order.
pub open spec fn are_packs_of(
    packs: Seq<MetricPack>,
    read: Seq<(Seq<char>, Seq<char>)>,
) -> bool {
    &&& packs.len() == read.len()
    &&& forall|i: int| 0 <= i < packs.len() ==> is_pack_of(#[trigger] packs[i], read[i])
}

/// Worker lifecycle operations and fan-out decisions.
pub struct WorkerManager;

impl WorkerManager {
    /// The URLs of all workers.
    pub fn get_worker_urls(workers: &[Worker]) -> (r: Vec<String>)
        ensures
            r@.len() == workers@.len(),
            forall|i: int| 0 <= i < r@.len() ==> (#[trigger] r@[i])@ == workers@[i].url@,
    {
        let mut urls: Vec<String> = Vec::new();
        let mut i: usize = 0;
        while i < workers.len()
            invariant
                i <= workers@.len(),
                urls@.len() == i,
                forall|k: int| 0 <= k < i ==> (#[trigger] urls@[k])@ == workers@[k].url@,
            decreases workers@.len() - i,
        {
            urls.push(workers[i].url.clone());
            i = i + 1;
        }
        urls
    }

    /// The requests of a cache flush: one to each worker that is reached over
    /// HTTP.
    pub fn flush_requests(workers: &[Worker]) -> (r: Vec<WorkerRequest>)
        ensures
            ask_all(r@, http_workers(workers@), RequestMethod::Post, "flush_cache"@),
    {
        http_requests(workers, RequestMethod::Post, "flush_cache")
    }

    /// The result of a cache flush, from the replies to its requests.
    pub fn flush_cache_all(workers: &[Worker], replies: &Vec<WorkerReply<()>>) -> (r:
        FlushCacheResult)
        requires
            statuses_valid(replies@),
        ensures
            r.total_workers == workers@.len(),
            r.http_workers == http_workers(workers@).len(),
            http_workers(workers@).len() == 0 ==> {
                &&& r.successful@.len() == 0
                &&& r.failed@.len() == 0
                &&& r.message@ == "No HTTP workers available for cache flush"@
            },
            http_workers(workers@).len() > 0 ==> {
                &&& texts(r.successful@) == successes(replies@)
                &&& text_pairs(r.failed@) == failures(replies@)
                &&& r.message@ == flush_message(successes(replies@).len(), failures(replies@).len())
            },
    {
        let total_workers: usize = workers.len();
        let http_workers: usize = count_http(workers);
        if http_workers == 0 {
            return FlushCacheResult {
                successful: Vec::new(),
                failed: Vec::new(),
                total_workers,
                http_workers,
                message: "No HTTP workers available for cache flush".to_owned(),
            };
        }
        let mut successful: Vec<String> = Vec::new();
        let mut failed: Vec<(String, String)> = Vec::new();
        let mut i: usize = 0;
        proof {
            assert(replies@.take(0) =~= Seq::<WorkerReply<()>>::empty());
            assert(texts(successful@) =~= Seq::<Seq<char>>::empty());
            assert(text_pairs(failed@) =~= Seq::<(Seq<char>, Seq<char>)>::empty());
        }
        while i < replies.len()
            invariant
                i <= replies@.len(),
                statuses_valid(replies@),
                texts(successful@) == successes(replies@.take(i as int)),
                text_pairs(failed@) == failures(replies@.take(i as int)),
            decreases replies@.len() - i,
        {
            let reply: &WorkerReply<()> = &replies[i];
            proof {
                let seen = replies@.take(i + 1);
                assert(seen.drop_last() =~= replies@.take(i as int));
                assert(seen.last() == replies@[i as int]);
            }
            let ghost old_successful = successful@;
            let ghost old_failed = failed@;
            if has_succeeded(&reply.outcome) {
                successful.push(reply.url.clone());
                proof {
                    assert(texts(successful@) =~= texts(old_successful).push(reply.url@));
                }
            } else {
                let reason: String = describe_failure(&reply.outcome);
                failed.push((reply.url.clone(), reason));
                proof {
                    assert(text_pairs(failed@) =~= text_pairs(old_failed).push(
                        (reply.url@, failure(reply.outcome)),
                    ));
                }
            }
            i = i + 1;
        }
        proof {
            assert(replies@.take(i as int) =~= replies@);
            assert(texts(successful@).len() == successful@.len());
            assert(text_pairs(failed@).len() == failed@.len());
        }
        let message: String = write_flush_message(successful.len(), failed.len());
        FlushCacheResult { successful, failed, total_workers, http_workers, message }
    }

    /// The load request to a worker; none where it is not reached over HTTP.
    pub fn load_request(worker: &Worker) -> (r: Option<WorkerRequest>)
        ensures
            match r {
                Some(request) => worker.connection_mode == ConnectionMode::Http && request.asks(
                    *worker,
                    RequestMethod::Get,
                    "v1/loads?include=core"@,
                ),
                None => worker.connection_mode != ConnectionMode::Http,
            },
    {
        if worker.connection_mode == ConnectionMode::Http {
            Some(request_to(worker, RequestMethod::Get, "v1/loads?include=core"))
        } else {
            None
        }
    }

    /// The scalar load that the outcome of a load request gives: the aggregate
    /// token count, or -1 where the request failed or the document has none.
    pub fn parse_load_response(outcome: &Outcome<Vec<u8>>) -> (r: isize)
        ensures
            r == load_from(*outcome),
    {
        match outcome {
            Outcome::Answered { status, body: Some(body) } => {
                if status_is_success(*status) {
                    parse_load(body.as_slice())
                } else {
                    UNKNOWN_LOAD
                }
            },
            _ => UNKNOWN_LOAD,
        }
    }

    /// The load of one worker, from the outcome of its load request, if one was
    /// sent. Only workers that are reached over HTTP have a known load.
    pub fn load_info(worker: &Worker, outcome: &Option<Outcome<Vec<u8>>>) -> (r: WorkerLoadInfo)
        ensures
            r.tells(*worker, *outcome),
    {
        WorkerLoadInfo {
            worker: worker.url.clone(),
            worker_type: match worker.worker_type {
                WorkerType::Regular => None,
                WorkerType::Prefill => Some("prefill".to_owned()),
                WorkerType::Decode => Some("decode".to_owned()),
            },
            load: match outcome {
                Some(outcome) => {
                    if worker.connection_mode == ConnectionMode::Http {
                        Self::parse_load_response(outcome)
                    } else {
                        UNKNOWN_LOAD
                    }
                },
                None => UNKNOWN_LOAD,
            },
        }
    }

    /// The loads of all workers, from the outcomes of their load requests, and
    /// how many of them are known.
    pub fn get_all_worker_loads(
        workers: &[Worker],
        outcomes: &Vec<Option<Outcome<Vec<u8>>>>,
    ) -> (r: WorkerLoadsResult)
        requires
            outcomes@.len() == workers@.len(),
        ensures
            r.loads@.len() == workers@.len(),
            forall|i: int|
                0 <= i < r.loads@.len() ==> (#[trigger] r.loads@[i]).tells(
                    workers@[i],
                    outcomes@[i],
                ),
            r.total_workers == workers@.len(),
            r.successful == known_loads(r.loads@),
            r.failed == workers@.len() - known_loads(r.loads@),
            r.successful == Set::new(
                |i: int| 0 <= i < r.loads@.len() && r.loads@[i].load >= 0,
            ).len(),
            r.failed == Set::new(|i: int| 0 <= i < r.loads@.len() && r.loads@[i].load < 0).len(),
    {
        let mut loads: Vec<WorkerLoadInfo> = Vec::new();
        let mut successful: usize = 0;
        let mut i: usize = 0;
        while i < workers.len()
            invariant
                i <= workers@.len() == outcomes@.len(),
                loads@.len() == i,
                forall|k: int|
                    0 <= k < i ==> (#[trigger] loads@[k]).tells(workers@[k], outcomes@[k]),
                successful == known_loads(loads@),
                successful <= i,
            decreases workers@.len() - i,
        {
            let load: WorkerLoadInfo = Self::load_info(&workers[i], &outcomes[i]);
            if load.load >= 0 {
                successful = successful + 1;
            }
            let ghost before = loads@;
            loads.push(load);
            proof {
                assert(loads@.drop_last() =~= before);
            }
            i = i + 1;
        }
        let total_workers: usize = workers.len();
        proof {
            law_known_loads_are_those_not_negative(loads@);
        }
        WorkerLoadsResult { loads, total_workers, successful, failed: total_workers - successful }
    }

    /// The prefill report that the outcome of a load request gives; nothing
    /// where the request failed or the document lists no rank.
    pub fn parse_prefill_load_response(outcome: &Outcome<Vec<u8>>) -> (r: Result<
        Option<PrefillLoadReport>,
        LoadTotalOverflow,
    >)
        ensures
            r is Ok <==> prefill_fits(*outcome),
            r matches Ok(report) ==> report == prefill_from(*outcome),
    {
        match outcome {
            Outcome::Answered { status, body: Some(body) } => {
                if status_is_success(*status) {
                    parse_prefill_load(body.as_slice())
                } else {
                    Ok(None)
                }
            },
            _ => Ok(None),
        }
    }

    /// The prefill reports by worker, from the outcomes of the load requests.
    /// Workers that gave none, or that are not reached over HTTP, are left out.
    pub fn get_all_prefill_loads(
        workers: &[Worker],
        outcomes: &Vec<Option<Outcome<Vec<u8>>>>,
    ) -> (r: Result<KeyedList<PrefillLoadReport>, LoadTotalOverflow>)
        requires
            outcomes@.len() == workers@.len(),
        ensures
            r is Ok <==> forall|i: int|
                0 <= i < workers@.len() ==> all_fit(#[trigger] workers@[i], outcomes@[i]),
            r matches Ok(reports) ==> reports@ == reports_by_worker(workers@, outcomes@),
    {
        let mut reports: KeyedList<PrefillLoadReport> = KeyedList::new();
        let mut i: usize = 0;
        proof {
            assert(workers@.take(0) =~= Seq::<Worker>::empty());
            assert(reports@ == reports_by_worker(workers@.take(0), outcomes@.take(0)));
        }
        while i < workers.len()
            invariant
                i <= workers@.len() == outcomes@.len(),
                forall|k: int| 0 <= k < i ==> all_fit(#[trigger] workers@[k], outcomes@[k]),
                reports@ == reports_by_worker(workers@.take(i as int), outcomes@.take(i as int)),
            decreases workers@.len() - i,
        {
            proof {
                let seen = workers@.take(i + 1);
                let heard = outcomes@.take(i + 1);
                assert(seen.drop_last() =~= workers@.take(i as int));
                assert(heard.drop_last() =~= outcomes@.take(i as int));
                assert(seen.last() == workers@[i as int]);
                assert(heard.last() == outcomes@[i as int]);
            }
            if workers[i].connection_mode == ConnectionMode::Http {
                if let Some(outcome) = &outcomes[i] {
                    match Self::parse_prefill_load_response(outcome) {
                        Ok(Some(report)) => {
                            reports.insert(workers[i].url.clone(), report);
                        },
                        Ok(None) => {},
                        Err(overflow) => {
                            assert(!all_fit(workers@[i as int], outcomes@[i as int]));
                            return Err(overflow);
                        },
                    }
                }
            }
            i = i + 1;
        }
        proof {
            assert(workers@.take(i as int) =~= workers@);
            assert(outcomes@.take(i as int) =~= outcomes@);
        }
        Ok(reports)
    }

    /// The requests of a metrics round: one to each worker.
    pub fn metrics_requests(workers: &[Worker]) -> (r: Vec<WorkerRequest>)
        ensures
            ask_all(r@, workers@, RequestMethod::Get, "metrics"@),
    {
        requests_to_all(workers, RequestMethod::Get, "metrics")
    }

    /// The metrics of the workers that answered, labelled with the worker's
    /// address, or the failure where there is no worker or none answered.
    pub fn metric_packs(workers: &[Worker], replies: &Vec<WorkerReply<String>>) -> (r: Result<
        Vec<MetricPack>,
        EngineMetricsResult,
    >)
        ensures
            match r {
                Ok(packs) => {
                    &&& workers@.len() > 0
                    &&& metrics_read(replies@).len() > 0
                    &&& are_packs_of(packs@, metrics_read(replies@))
                },
                Err(failure) => if workers@.len() == 0 {
                    failure.fails_with("No available workers"@)
                } else {
                    metrics_read(replies@).len() == 0 && failure.fails_with(
                        "All backend requests failed"@,
                    )
                },
            },
    {
        if workers.len() == 0 {
            return Err(EngineMetricsResult::Failure("No available workers".to_owned()));
        }
        let mut packs: Vec<MetricPack> = Vec::new();
        let mut i: usize = 0;
        proof {
            assert(replies@.take(0) =~= Seq::<WorkerReply<String>>::empty());
        }
        while i < replies.len()
            invariant
                i <= replies@.len(),
                are_packs_of(packs@, metrics_read(replies@.take(i as int))),
            decreases replies@.len() - i,
        {
            proof {
                let seen = replies@.take(i + 1);
                assert(seen.drop_last() =~= replies@.take(i as int));
                assert(seen.last() == replies@[i as int]);
            }
            if let Outcome::Answered { status, body: Some(text) } = &replies[i].outcome {
                if status_is_success(*status) {
                    let mut labels: Vec<(String, String)> = Vec::new();
                    labels.push(("worker_addr".to_owned(), replies[i].url.clone()));
                    proof {
                        assert(text_pairs(labels@) =~= seq![
                            ("worker_addr"@, replies@[i as int].url@),
                        ]);
                    }
                    packs.push(MetricPack { labels, metrics_text: text.clone() });
                }
            }
            i = i + 1;
        }
        proof {
            assert(replies@.take(i as int) =~= replies@);
        }
        if packs.len() == 0 {
            return Err(EngineMetricsResult::Failure("All backend requests failed".to_owned()));
        }
        Ok(packs)
    }

    /// The result of a metrics round, once the packs have been merged.
    pub fn get_engine_metrics(merged: Result<String, String>) -> (r: EngineMetricsResult)
        ensures
            match merged {
                Ok(text) => r == EngineMetricsResult::Metrics(text),
                Err(error) => r.fails_with("Failed to aggregate metrics: "@ + error@),
            },
    {
        match merged {
            Ok(text) => EngineMetricsResult::Metrics(text),
            Err(error) => EngineMetricsResult::Failure(
                join("Failed to aggregate metrics: ", error.as_str()),
            ),
        }
    }
}

} // verus!
