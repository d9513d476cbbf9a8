//! What the lists and counts of the worker manager and the monitor hold, stated of
//! the replies, the documents and the loads that they are made from.
use crate::json::{json_document, JsonTree};
use crate::loads::{
    busy, load_entries, prefilled, report_of, running, total_fits, total_of, totals_fit, waiting,
    LoadEntry,
};
use crate::monitor::{loads_by_worker, wants_prefill_detail};
use crate::status::status_text;
use crate::text::decimal;
use crate::worker::{ConnectionMode, Worker, WorkerType};
use crate::worker_manager::{
    all_fit, failures, flush_message, http_workers, known_loads, load_from, metrics_read,
    prefill_fits, prefill_from, reports_by_worker, successes, Outcome, RequestMethod,
    WorkerLoadInfo, WorkerReply, WorkerRequest,
};
use vstd::prelude::*;

verus! {

/// A load counts as known exactly where it is not negative, zero included, and as
/// unknown exactly where it is negative.
pub proof fn law_known_loads_are_those_not_negative(loads: Seq<WorkerLoadInfo>)
    ensures
        ({
            let known = Set::new(|i: int| 0 <= i < loads.len() && loads[i].load >= 0);
            let unknown = Set::new(|i: int| 0 <= i < loads.len() && loads[i].load < 0);
            &&& known.finite()
            &&& unknown.finite()
            &&& known_loads(loads) == known.len()
            &&& loads.len() - known_loads(loads) == unknown.len()
        }),
    decreases loads.len(),
{
    let known = Set::new(|i: int| 0 <= i < loads.len() && loads[i].load >= 0);
    let unknown = Set::new(|i: int| 0 <= i < loads.len() && loads[i].load < 0);
    if loads.len() == 0 {
        assert(known =~= Set::empty());
        assert(unknown =~= Set::empty());
    } else {
        let front = loads.drop_last();
        let n = loads.len() - 1;
        law_known_loads_are_those_not_negative(front);
        let known_before = Set::new(|i: int| 0 <= i < front.len() && front[i].load >= 0);
        let unknown_before = Set::new(|i: int| 0 <= i < front.len() && front[i].load < 0);
        if loads[n].load >= 0 {
            assert(known =~= known_before.insert(n));
            assert(unknown =~= unknown_before);
        } else {
            assert(known =~= known_before);
            assert(unknown =~= unknown_before.insert(n));
        }
    }
}

/// The scalar load of a worker is the aggregate token count of the document that
/// it answered with, zero included; without success, without a document or without
/// that count it is -1.
pub proof fn law_the_load_is_the_aggregate_token_count(outcome: Outcome<Vec<u8>>)
    ensures
        match outcome {
            Outcome::Answered { status, body: Some(body) } => if 200 <= status < 300 {
                match json_document(body@) {
                    Some(JsonTree::Object(members)) => match members[("aggregate"@)] {
                        JsonTree::Object(totals) => match totals[("total_tokens"@)] {
                            JsonTree::Integer(count) => if members.contains_key("aggregate"@)
                                && totals.contains_key("total_tokens"@) {
                                isize::MIN <= count <= isize::MAX ==> load_from(outcome) == count
                            } else {
                                load_from(outcome) == -1
                            },
                            _ => load_from(outcome) == -1,
                        },
                        _ => load_from(outcome) == -1,
                    },
                    _ => load_from(outcome) == -1,
                }
            } else {
                load_from(outcome) == -1
            },
            _ => load_from(outcome) == -1,
        },
{
}

/// The load that is told of a worker carries its URL and its pool; a worker of the
/// regular pool is left unnamed, and one that is not reached over HTTP, or was not
/// asked, has load -1.
pub proof fn law_loads_are_told_of_their_worker(
    info: WorkerLoadInfo,
    worker: Worker,
    outcome: Option<Outcome<Vec<u8>>>,
)
    requires
        info.tells(worker, outcome),
    ensures
        info.worker@ == worker.url@,
        worker.worker_type == WorkerType::Regular <==> info.worker_type is None,
        worker.worker_type == WorkerType::Prefill ==> (info.worker_type matches Some(name) && name@
            == "prefill"@),
        worker.worker_type == WorkerType::Decode ==> (info.worker_type matches Some(name) && name@
            == "decode"@),
        worker.connection_mode == ConnectionMode::Grpc || outcome is None ==> info.load == -1,
        worker.connection_mode == ConnectionMode::Http ==> (outcome matches Some(outcome)
            ==> info.load == load_from(outcome)),
{
}

/// A request goes to the worker's own URL, a slash and the endpoint, by the given
/// method and with the worker's own key.
pub proof fn law_requests_go_to_the_workers_endpoint(
    request: WorkerRequest,
    worker: Worker,
    method: RequestMethod,
    endpoint: Seq<char>,
)
    requires
        request.asks(worker, method, endpoint),
    ensures
        request.worker@ == worker.url@,
        request.method == method,
        request.address@ == worker.url@ + seq!['/'] + endpoint,
        match (request.bearer, worker.api_key) {
            (Some(bearer), Some(key)) => bearer@ == key@,
            (None, None) => true,
            _ => false,
        },
{
    reveal_strlit("/");
    assert("/"@ =~= seq!['/']);
}

/// The workers that are reached over HTTP: each of them, in order, and no other.
pub proof fn law_http_workers_are_picked_one_by_one(
    first: Seq<Worker>,
    second: Seq<Worker>,
    worker: Worker,
)
    ensures
        http_workers(first + second) == http_workers(first) + http_workers(second),
        worker.connection_mode == ConnectionMode::Http ==> http_workers(seq![worker]) == seq![
            worker,
        ],
        worker.connection_mode == ConnectionMode::Grpc ==> http_workers(seq![worker]) == Seq::<
            Worker,
        >::empty(),
    decreases second.len(),
{
    if second.len() == 0 {
        assert(first + second =~= first);
        assert(http_workers(first) + http_workers(second) =~= http_workers(first));
    } else {
        law_http_workers_are_picked_one_by_one(first, second.drop_last(), worker);
        assert((first + second).drop_last() =~= first + second.drop_last());
        let before = http_workers(second.drop_last());
        assert(http_workers(first) + before.push(second.last()) =~= (http_workers(first)
            + before).push(second.last()));
    }
    let one = seq![worker];
    assert(one.drop_last() =~= Seq::<Worker>::empty());
    assert(http_workers(one.drop_last()).len() == 0);
    assert(http_workers(one.drop_last()).push(worker) =~= seq![worker]);
}

/// The replies of a flush are told apart one by one, in order: an answer with a
/// status from 200 to 299 is a success, any other answer a failure with its status,
/// and a request that failed a failure with its error.
pub proof fn law_flush_replies_are_told_apart_one_by_one<B>(
    first: Seq<WorkerReply<B>>,
    second: Seq<WorkerReply<B>>,
    reply: WorkerReply<B>,
)
    ensures
        successes(first + second) == successes(first) + successes(second),
        failures(first + second) == failures(first) + failures(second),
        match reply.outcome {
            Outcome::Answered { status, .. } => if 200 <= status < 300 {
                &&& successes(seq![reply]) == seq![reply.url@]
                &&& failures(seq![reply]).len() == 0
            } else {
                &&& successes(seq![reply]).len() == 0
                &&& failures(seq![reply]) == seq![(reply.url@, "HTTP "@ + status_text(status))]
            },
            Outcome::Failed { error } => {
                &&& successes(seq![reply]).len() == 0
                &&& failures(seq![reply]) == seq![(reply.url@, error@)]
            },
        },
    decreases second.len(),
{
    if second.len() == 0 {
        assert(first + second =~= first);
        assert(successes(first) + successes(second) =~= successes(first));
        assert(failures(first) + failures(second) =~= failures(first));
    } else {
        law_flush_replies_are_told_apart_one_by_one(first, second.drop_last(), reply);
        assert((first + second).drop_last() =~= first + second.drop_last());
        assert(successes(first + second) =~= successes(first) + successes(second));
        assert(failures(first + second) =~= failures(first) + failures(second));
    }
    let one = seq![reply];
    assert(one.drop_last() =~= Seq::<WorkerReply<B>>::empty());
    assert(successes(one.drop_last()) =~= Seq::<Seq<char>>::empty());
    assert(failures(one.drop_last()) =~= Seq::<(Seq<char>, Seq<char>)>::empty());
}

/// The message of a flush: complete where nothing failed, and with both counts
/// where something did.
pub proof fn law_flush_messages_give_the_counts(successful: nat, failed: nat)
    ensures
        flush_message(successful, 0) == "Successfully flushed cache on all "@ + decimal(successful)
            + " HTTP workers"@,
        failed > 0 ==> flush_message(successful, failed) == "Cache flush: "@ + decimal(successful)
            + " succeeded, "@ + decimal(failed) + " failed"@,
{
}

/// The number that a text of decimal digits reads as.
pub open spec fn read_digits(text: Seq<char>) -> int
    decreases text.len(),
{
    if text.len() == 0 {
        0
    } else {
        10 * read_digits(text.drop_last()) + (text.last() as int - '0' as int)
    }
}

/// A number written in decimal reads back as itself, and has no leading zero.
pub proof fn law_decimals_read_back(n: nat)
    ensures
        read_digits(decimal(n)) == n,
        decimal(n).len() > 0,
        n > 0 ==> decimal(n)[0] != '0',
        forall|i: int|
            0 <= i < decimal(n).len() ==> '0' as int <= (#[trigger] decimal(n)[i]) as int
                <= '9' as int,
    decreases n,
{
    if n < 10 {
        let text = decimal(n);
        assert(text.drop_last() =~= Seq::<char>::empty());
        assert(read_digits(text.drop_last()) == 0);
    } else {
        law_decimals_read_back(n / 10);
        assert(decimal(n).drop_last() =~= decimal(n / 10));
    }
}

/// The metrics are read reply by reply, in order: from an answer with a status from
/// 200 to 299 whose text could be read, and from no other.
pub proof fn law_metrics_are_read_one_by_one(
    first: Seq<WorkerReply<String>>,
    second: Seq<WorkerReply<String>>,
    reply: WorkerReply<String>,
)
    ensures
        metrics_read(first + second) == metrics_read(first) + metrics_read(second),
        match reply.outcome {
            Outcome::Answered { status, body: Some(text) } => if 200 <= status < 300 {
                metrics_read(seq![reply]) == seq![(reply.url@, text@)]
            } else {
                metrics_read(seq![reply]).len() == 0
            },
            _ => metrics_read(seq![reply]).len() == 0,
        },
    decreases second.len(),
{
    if second.len() == 0 {
        assert(first + second =~= first);
        assert(metrics_read(first) + metrics_read(second) =~= metrics_read(first));
    } else {
        law_metrics_are_read_one_by_one(first, second.drop_last(), reply);
        assert((first + second).drop_last() =~= first + second.drop_last());
        assert(metrics_read(first + second) =~= metrics_read(first) + metrics_read(second));
    }
    let one = seq![reply];
    assert(one.drop_last() =~= Seq::<WorkerReply<String>>::empty());
    assert(metrics_read(one.drop_last()) =~= Seq::<(Seq<char>, Seq<char>)>::empty());
}

/// The report that a worker gave is kept under its URL, unless a later worker with
/// that URL gave one too.
pub proof fn law_the_last_report_of_a_worker_is_kept(
    workers: Seq<Worker>,
    outcomes: Seq<Option<Outcome<Vec<u8>>>>,
    i: int,
)
    requires
        workers.len() == outcomes.len(),
        0 <= i < workers.len(),
        workers[i].connection_mode == ConnectionMode::Http,
        outcomes[i] is Some,
        prefill_from(outcomes[i]->0) is Some,
        forall|j: int|
            i < j < workers.len() && (#[trigger] workers[j]).url@ == workers[i].url@
                && workers[j].connection_mode == ConnectionMode::Http && outcomes[j] is Some
                ==> prefill_from(outcomes[j]->0) is None,
    ensures
        reports_by_worker(workers, outcomes).contains_key(workers[i].url@),
        reports_by_worker(workers, outcomes)[workers[i].url@] == prefill_from(outcomes[i]->0)->0,
    decreases workers.len(),
{
    let n = workers.len() - 1;
    if i < n {
        let front = workers.drop_last();
        let heard = outcomes.drop_last();
        assert forall|j: int|
            i < j < front.len() && (#[trigger] front[j]).url@ == front[i].url@
                && front[j].connection_mode == ConnectionMode::Http
                && heard[j] is Some implies prefill_from(heard[j]->0) is None by {
            assert(workers[j].url@ == workers[i].url@);
        }
        law_the_last_report_of_a_worker_is_kept(front, heard, i);
        assert(workers[n] == workers.last());
    }
}

/// No report is kept under a URL of which no worker that is reached over HTTP gave
/// one.
pub proof fn law_reports_come_from_http_workers(
    workers: Seq<Worker>,
    outcomes: Seq<Option<Outcome<Vec<u8>>>>,
    url: Seq<char>,
)
    requires
        workers.len() == outcomes.len(),
        forall|j: int|
            0 <= j < workers.len() && (#[trigger] workers[j]).url@ == url
                && workers[j].connection_mode == ConnectionMode::Http && outcomes[j] is Some
                ==> prefill_from(outcomes[j]->0) is None,
    ensures
        !reports_by_worker(workers, outcomes).contains_key(url),
    decreases workers.len(),
{
    if workers.len() > 0 {
        let n = workers.len() - 1;
        let front = workers.drop_last();
        let heard = outcomes.drop_last();
        assert forall|j: int|
            0 <= j < front.len() && (#[trigger] front[j]).url@ == url && front[j].connection_mode
                == ConnectionMode::Http && heard[j] is Some implies prefill_from(
            heard[j]->0,
        ) is None by {
            assert(workers[j].url@ == url);
        }
        law_reports_come_from_http_workers(front, heard, url);
        assert(workers[n] == workers.last());
    }
}

/// The prefill report of a worker comes from the document of an answer with a
/// status from 200 to 299, and from nothing else.
pub proof fn law_prefill_reports_need_a_document(outcome: Outcome<Vec<u8>>)
    ensures
        match outcome {
            Outcome::Answered { status, body: Some(body) } => if 200 <= status < 300 {
                match json_document(body@) {
                    Some(document) => {
                        &&& prefill_from(outcome) == report_of(load_entries(document))
                        &&& prefill_fits(outcome) <==> totals_fit(load_entries(document))
                    },
                    None => prefill_from(outcome) is None && prefill_fits(outcome),
                }
            } else {
                prefill_from(outcome) is None && prefill_fits(outcome)
            },
            _ => prefill_from(outcome) is None && prefill_fits(outcome),
        },
{
}

/// Only the documents of workers that are reached over HTTP can be too large.
pub proof fn law_only_http_documents_are_added_up(
    worker: Worker,
    outcome: Option<Outcome<Vec<u8>>>,
)
    ensures
        worker.connection_mode == ConnectionMode::Grpc || outcome is None ==> all_fit(
            worker,
            outcome,
        ),
        worker.connection_mode == ConnectionMode::Http ==> (outcome matches Some(outcome) ==> (
        all_fit(worker, Some(outcome)) <==> prefill_fits(outcome))),
{
}

/// The integer under a key of an object, and nothing of any other value.
pub proof fn law_integers_are_read_from_objects(tree: JsonTree, key: Seq<char>)
    ensures
        match tree {
            JsonTree::Object(members) => match members[key] {
                JsonTree::Integer(number) => members.contains_key(key) ==> tree.integer_at(key)
                    == Some(number),
                _ => tree.integer_at(key) is None,
            },
            _ => tree.integer_at(key) is None,
        },
        (tree matches JsonTree::Object(members) && !members.contains_key(key)) ==> tree.integer_at(
            key,
        ) is None,
{
}

/// The entries of a load document are those listed under `loads`, or the document
/// itself where there is no list, and each gives the four counts under their keys.
pub proof fn law_each_rank_gives_four_counts(document: JsonTree, ranks: Seq<JsonTree>)
    requires
        match document {
            JsonTree::Object(members) => if members.contains_key("loads"@) {
                match members["loads"@] {
                    JsonTree::Array(listed) => ranks == listed,
                    _ => ranks == seq![document],
                }
            } else {
                ranks == seq![document]
            },
            _ => ranks == seq![document],
        },
    ensures
        load_entries(document).len() == ranks.len(),
        forall|i: int|
            0 <= i < ranks.len() ==> {
                let entry = #[trigger] load_entries(document)[i];
                &&& entry.waiting_uncached_tokens == ranks[i].integer_at(
                    "num_waiting_uncached_tokens"@,
                )
                &&& entry.running_reqs == ranks[i].integer_at("num_running_reqs"@)
                &&& entry.total_prefill_uncached_tokens == ranks[i].integer_at(
                    "total_prefill_uncached_tokens"@,
                )
                &&& entry.total_prefill_busy_us == ranks[i].integer_at("total_prefill_busy_us"@)
            },
{
}

proof fn lemma_whole_total_fits(values: Seq<Option<i64>>)
    requires
        total_fits(values),
    ensures
        total_of(values) matches Some(sum) ==> i64::MIN <= sum <= i64::MAX,
{
    assert(values.take(values.len() as int) =~= values);
    assert(total_of(values.take(values.len() as int)) == total_of(values));
}

/// The report of a worker is, field by field, the sum of what its ranks give. A
/// missing load counts as zero and a missing counter stays missing; without ranks
/// there is no report.
pub proof fn law_reports_sum_the_ranks(entries: Seq<LoadEntry>)
    requires
        totals_fit(entries),
    ensures
        ({
            let waiting = total_of(
                Seq::new(entries.len(), |i: int| entries[i].waiting_uncached_tokens),
            );
            let running = total_of(Seq::new(entries.len(), |i: int| entries[i].running_reqs));
            let tokens = total_of(
                Seq::new(entries.len(), |i: int| entries[i].total_prefill_uncached_tokens),
            );
            let busy = total_of(Seq::new(entries.len(), |i: int| entries[i].total_prefill_busy_us));
            match report_of(entries) {
                Some(report) => {
                    &&& entries.len() > 0
                    &&& waiting matches Some(sum) ==> report.waiting_uncached_tokens == sum
                    &&& waiting is None ==> report.waiting_uncached_tokens == 0
                    &&& running matches Some(sum) ==> report.running_reqs == sum
                    &&& running is None ==> report.running_reqs == 0
                    &&& tokens is Some <==> report.total_prefill_uncached_tokens is Some
                    &&& tokens matches Some(sum) ==> report.total_prefill_uncached_tokens->0 == sum
                    &&& busy is Some <==> report.total_prefill_busy_us is Some
                    &&& busy matches Some(sum) ==> report.total_prefill_busy_us->0 == sum
                },
                None => entries.len() == 0,
            }
        }),
{
    lemma_columns(entries);
    lemma_whole_total_fits(waiting(entries));
    lemma_whole_total_fits(running(entries));
    lemma_whole_total_fits(prefilled(entries));
    lemma_whole_total_fits(busy(entries));
}

proof fn lemma_columns(entries: Seq<LoadEntry>)
    ensures
        waiting(entries) == Seq::new(entries.len(), |i: int| entries[i].waiting_uncached_tokens),
        running(entries) == Seq::new(entries.len(), |i: int| entries[i].running_reqs),
        prefilled(entries) == Seq::new(
            entries.len(),
            |i: int| entries[i].total_prefill_uncached_tokens,
        ),
        busy(entries) == Seq::new(entries.len(), |i: int| entries[i].total_prefill_busy_us),
{
}

/// The loads of a worker are refused exactly where one of the four sums leaves the
/// range of a counter on the way.
pub proof fn law_sums_are_refused_only_out_of_range(entries: Seq<LoadEntry>)
    ensures
        totals_fit(entries) <==> {
            let waiting = Seq::new(entries.len(), |i: int| entries[i].waiting_uncached_tokens);
            let running = Seq::new(entries.len(), |i: int| entries[i].running_reqs);
            let tokens = Seq::new(entries.len(), |i: int| entries[i].total_prefill_uncached_tokens);
            let busy = Seq::new(entries.len(), |i: int| entries[i].total_prefill_busy_us);
            &&& forall|n: int|
                0 <= n <= entries.len() ==> (#[trigger] total_of(waiting.take(n)) matches Some(sum)
                    ==> i64::MIN <= sum <= i64::MAX)
            &&& forall|n: int|
                0 <= n <= entries.len() ==> (#[trigger] total_of(running.take(n)) matches Some(sum)
                    ==> i64::MIN <= sum <= i64::MAX)
            &&& forall|n: int|
                0 <= n <= entries.len() ==> (#[trigger] total_of(tokens.take(n)) matches Some(sum)
                    ==> i64::MIN <= sum <= i64::MAX)
            &&& forall|n: int|
                0 <= n <= entries.len() ==> (#[trigger] total_of(busy.take(n)) matches Some(sum)
                    ==> i64::MIN <= sum <= i64::MAX)
        },
{
    lemma_columns(entries);
}

/// A sum leaves out what is missing, and is missing where all of it is: together
/// with `law_ranks_add_up` this says what every sum is.
pub proof fn law_a_single_value_is_its_own_sum(value: i64)
    ensures
        total_of(Seq::<Option<i64>>::empty()) is None,
        total_of(seq![None::<i64>]) is None,
        total_of(seq![Some(value)]) == Some(value as int),
{
    let some = seq![Some(value)];
    let none = seq![None::<i64>];
    assert(some.drop_last() =~= Seq::<Option<i64>>::empty());
    assert(none.drop_last() =~= Seq::<Option<i64>>::empty());
    assert(total_of(some.drop_last()) is None);
    assert(total_of(none.drop_last()) is None);
}

/// The load of a worker is handed on under its URL, unless a later load is told of
/// that URL too.
pub proof fn law_the_last_load_of_a_worker_is_kept(loads: Seq<WorkerLoadInfo>, i: int)
    requires
        0 <= i < loads.len(),
        forall|j: int| i < j < loads.len() ==> (#[trigger] loads[j]).worker@ != loads[i].worker@,
    ensures
        loads_by_worker(loads).contains_key(loads[i].worker@),
        loads_by_worker(loads)[loads[i].worker@] == loads[i].load,
    decreases loads.len(),
{
    let n = loads.len() - 1;
    if i < n {
        let front = loads.drop_last();
        assert forall|j: int| i < j < front.len() implies (#[trigger] front[j]).worker@
            != front[i].worker@ by {
            assert(loads[j].worker@ != loads[i].worker@);
        }
        law_the_last_load_of_a_worker_is_kept(front, i);
        assert(loads[n] == loads.last());
    }
}

/// No load is handed on under a URL of which none is told.
pub proof fn law_loads_come_from_workers(loads: Seq<WorkerLoadInfo>, url: Seq<char>)
    requires
        forall|j: int| 0 <= j < loads.len() ==> (#[trigger] loads[j]).worker@ != url,
    ensures
        !loads_by_worker(loads).contains_key(url),
    decreases loads.len(),
{
    if loads.len() > 0 {
        let n = loads.len() - 1;
        let front = loads.drop_last();
        assert forall|j: int| 0 <= j < front.len() implies (#[trigger] front[j]).worker@ != url by {
            assert(loads[j].worker@ != url);
        }
        law_loads_come_from_workers(front, url);
        assert(loads[n] == loads.last());
    }
}

/// The detailed loads are wanted exactly where a chunk-aware policy is among those
/// that want loads.
pub proof fn law_detail_is_wanted_by_chunk_aware_policies(policies: Seq<String>)
    ensures
        wants_prefill_detail(policies) <==> exists|i: int|
            0 <= i < policies.len() && (#[trigger] policies[i])@ == "chunk_aware"@,
{
}

} // verus!
