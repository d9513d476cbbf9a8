//! Reading the load documents that workers answer `/v1/loads?include=core` with.
use crate::json::{
    integer_member, json_document, json_elements, json_member, json_tree, parse_json, JsonTree,
};
use crate::policy::PrefillLoadReport;
use serde_json::Value;
use vstd::prelude::*;

verus! {

/// The load that stands for a worker whose load could not be read.
pub const UNKNOWN_LOAD: isize = -1;

/// The load of a worker whose document reports `total` tokens.
pub open spec fn scalar_load(total: Option<i64>) -> isize {
    match total {
        Some(total) => total as isize,
        None => UNKNOWN_LOAD,
    }
}

/// The load of a worker whose document reports `total` tokens, or -1 where it
/// reports none.
pub fn load_of_total(total: Option<i64>) -> (r: isize)
    ensures
        r == scalar_load(total),
{
    match total {
        Some(total) => total as isize,
        None => UNKNOWN_LOAD,
    }
}

/// The aggregate token count that a load document reports.
pub open spec fn total_tokens(document: JsonTree) -> Option<i64> {
    match document.member("aggregate"@) {
        Some(aggregate) => aggregate.integer_at("total_tokens"@),
        None => None,
    }
}

/// The scalar load that a worker answered with: the aggregate token count of its
/// load document, or -1 where there is none.
pub fn parse_load(body: &[u8]) -> (r: isize)
    ensures
        r == (match json_document(body@) {
            Some(document) => scalar_load(total_tokens(document)),
            None => UNKNOWN_LOAD,
        }),
{
    let document: Value = match parse_json(body) {
        Ok(document) => document,
        Err(_) => {
            return UNKNOWN_LOAD;
        },
    };
    let total: Option<i64> = match json_member(&document, "aggregate") {
        Some(aggregate) => integer_member(aggregate, "total_tokens"),
        None => None,
    };
    load_of_total(total)
}

/// The prefill load of one rank of a worker, as far as its entry reports it.
#[derive(Debug, Clone, Copy, PartialEq, Eq, Structural)]
pub struct LoadEntry {
    pub waiting_uncached_tokens: Option<i64>,
    pub running_reqs: Option<i64>,
    pub total_prefill_uncached_tokens: Option<i64>,
    pub total_prefill_busy_us: Option<i64>,
}

/// What one entry of a load document reports.
pub open spec fn entry_of(entry: JsonTree) -> LoadEntry {
    LoadEntry {
        waiting_uncached_tokens: entry.integer_at("num_waiting_uncached_tokens"@),
        running_reqs: entry.integer_at("num_running_reqs"@),
        total_prefill_uncached_tokens: entry.integer_at("total_prefill_uncached_tokens"@),
        total_prefill_busy_us: entry.integer_at("total_prefill_busy_us"@),
    }
}

/// The entries of a load document: one per rank under `loads`, or the document
/// itself where there is no such list.
pub open spec fn load_entries(document: JsonTree) -> Seq<LoadEntry> {
    match document.member("loads"@) {
        Some(JsonTree::Array(entries)) => Seq::new(entries.len(), |i: int| entry_of(entries[i])),
        _ => seq![entry_of(document)],
    }
}

fn read_entry(entry: &Value) -> (r: LoadEntry)
    ensures
        r == entry_of(json_tree(*entry)),
{
    LoadEntry {
        waiting_uncached_tokens: integer_member(entry, "num_waiting_uncached_tokens"),
        running_reqs: integer_member(entry, "num_running_reqs"),
        total_prefill_uncached_tokens: integer_member(entry, "total_prefill_uncached_tokens"),
        total_prefill_busy_us: integer_member(entry, "total_prefill_busy_us"),
    }
}

/// The entries of a load document.
fn read_entries(document: &Value) -> (r: Vec<LoadEntry>)
    ensures
        r@ == load_entries(json_tree(*document)),
{
    let mut entries: Vec<LoadEntry> = Vec::new();
    if let Some(loads) = json_member(document, "loads") {
        if let Some(values) = json_elements(loads) {
            let mut i: usize = 0;
            while i < values.len()
                invariant
                    i <= values@.len(),
                    entries@.len() == i,
                    forall|k: int|
                        0 <= k < i ==> #[trigger] entries@[k] == entry_of(json_tree(values@[k])),
                decreases values@.len() - i,
            {
                let entry: LoadEntry = read_entry(&values[i]);
                entries.push(entry);
                i = i + 1;
            }
            proof {
                assert(entries@ =~= load_entries(json_tree(*document)));
            }
            return entries;
        }
    }
    let entry: LoadEntry = read_entry(document);
    entries.push(entry);
    proof {
        assert(entries@ =~= load_entries(json_tree(*document)));
    }
    entries
}

/// The sum of the values that are there; nothing where none is.
pub open spec fn total_of(values: Seq<Option<i64>>) -> Option<int>
    decreases values.len(),
{
    if values.len() == 0 {
        None
    } else {
        let before = total_of(values.drop_last());
        match (before, values.last()) {
            (Some(sum), Some(value)) => Some(sum + value),
            (None, Some(value)) => Some(value as int),
            _ => before,
        }
    }
}

/// Whether all partial sums fit.
pub open spec fn total_fits(values: Seq<Option<i64>>) -> bool {
    forall|n: int|
        0 <= n <= values.len() ==> (#[trigger] total_of(values.take(n)) matches Some(sum)
            ==> i64::MIN <= sum <= i64::MAX)
}

/// The sums of a document outgrow the counters.
#[derive(Debug, Clone, Copy, PartialEq, Eq, Structural)]
pub struct LoadTotalOverflow;

/// Adds up the values that are there.
fn add_up(values: &Vec<Option<i64>>) -> (r: Result<Option<i64>, LoadTotalOverflow>)
    ensures
        r is Ok <==> total_fits(values@),
        r matches Ok(total) ==> match total {
            Some(total) => total_of(values@) == Some(total as int),
            None => total_of(values@) is None,
        },
{
    let mut total: Option<i64> = None;
    let mut i: usize = 0;
    proof {
        assert(values@.take(0) =~= Seq::<Option<i64>>::empty());
    }
    while i < values.len()
        invariant
            i <= values@.len(),
            match total {
                Some(sum) => total_of(values@.take(i as int)) == Some(sum as int),
                None => total_of(values@.take(i as int)) is None,
            },
            forall|n: int|
                0 <= n <= i ==> (#[trigger] total_of(values@.take(n)) matches Some(sum)
                    ==> i64::MIN <= sum <= i64::MAX),
        decreases values@.len() - i,
    {
        proof {
            let seen = values@.take(i + 1);
            assert(seen.drop_last() =~= values@.take(i as int));
            assert(seen.last() == values@[i as int]);
        }
        if let Some(value) = values[i] {
            let so_far: i64 = match total {
                Some(sum) => sum,
                None => 0,
            };
            match so_far.checked_add(value) {
                Some(sum) => {
                    total = Some(sum);
                },
                None => {
                    proof {
                        let sum = total_of(values@.take(i + 1));
                        assert(sum matches Some(sum) && !(i64::MIN <= sum <= i64::MAX));
                    }
                    return Err(LoadTotalOverflow);
                },
            }
        }
        i = i + 1;
    }
    proof {
        assert(values@.take(i as int) =~= values@);
    }
    Ok(total)
}

/// One column of the entries of a document.
pub open spec fn column(entries: Seq<LoadEntry>, pick: spec_fn(LoadEntry) -> Option<i64>) -> Seq<
    Option<i64>,
> {
    Seq::new(entries.len(), |i: int| pick(entries[i]))
}

pub open spec fn waiting(entries: Seq<LoadEntry>) -> Seq<Option<i64>> {
    column(entries, |entry: LoadEntry| entry.waiting_uncached_tokens)
}

pub open spec fn running(entries: Seq<LoadEntry>) -> Seq<Option<i64>> {
    column(entries, |entry: LoadEntry| entry.running_reqs)
}

pub open spec fn prefilled(entries: Seq<LoadEntry>) -> Seq<Option<i64>> {
    column(entries, |entry: LoadEntry| entry.total_prefill_uncached_tokens)
}

pub open spec fn busy(entries: Seq<LoadEntry>) -> Seq<Option<i64>> {
    column(entries, |entry: LoadEntry| entry.total_prefill_busy_us)
}

/// Whether the sums of all columns fit.
pub open spec fn totals_fit(entries: Seq<LoadEntry>) -> bool {
    &&& total_fits(waiting(entries))
    &&& total_fits(running(entries))
    &&& total_fits(prefilled(entries))
    &&& total_fits(busy(entries))
}

/// The counter that a sum stands for.
pub open spec fn counter(total: Option<int>) -> Option<i64> {
    match total {
        Some(total) => Some(total as i64),
        None => None,
    }
}

/// The report that the entries of a worker add up to, so that a worker split
/// over ranks is comparable to a plain one; nothing where there is no entry.
///
/// The cumulative counters are absent where no rank reports them, which keeps
/// the policy in proxy mode.
pub open spec fn report_of(entries: Seq<LoadEntry>) -> Option<PrefillLoadReport> {
    if entries.len() == 0 {
        None
    } else {
        Some(
            PrefillLoadReport {
                waiting_uncached_tokens: match counter(total_of(waiting(entries))) {
                    Some(total) => total,
                    None => 0,
                },
                running_reqs: match counter(total_of(running(entries))) {
                    Some(total) => total,
                    None => 0,
                },
                total_prefill_uncached_tokens: counter(total_of(prefilled(entries))),
                total_prefill_busy_us: counter(total_of(busy(entries))),
            },
        )
    }
}

/// Adds the entries of a worker up to its report.
pub fn sum_entries(entries: &Vec<LoadEntry>) -> (r: Result<
    Option<PrefillLoadReport>,
    LoadTotalOverflow,
>)
    ensures
        r is Ok <==> totals_fit(entries@),
        r matches Ok(report) ==> report == report_of(entries@),
{
    let mut waiting_tokens: Vec<Option<i64>> = Vec::new();
    let mut running_reqs: Vec<Option<i64>> = Vec::new();
    let mut prefilled_tokens: Vec<Option<i64>> = Vec::new();
    let mut busy_us: Vec<Option<i64>> = Vec::new();
    let mut i: usize = 0;
    while i < entries.len()
        invariant
            i <= entries@.len(),
            waiting_tokens@ == waiting(entries@).take(i as int),
            running_reqs@ == running(entries@).take(i as int),
            prefilled_tokens@ == prefilled(entries@).take(i as int),
            busy_us@ == busy(entries@).take(i as int),
        decreases entries@.len() - i,
    {
        waiting_tokens.push(entries[i].waiting_uncached_tokens);
        running_reqs.push(entries[i].running_reqs);
        prefilled_tokens.push(entries[i].total_prefill_uncached_tokens);
        busy_us.push(entries[i].total_prefill_busy_us);
        proof {
            assert(waiting_tokens@ =~= waiting(entries@).take(i + 1));
            assert(running_reqs@ =~= running(entries@).take(i + 1));
            assert(prefilled_tokens@ =~= prefilled(entries@).take(i + 1));
            assert(busy_us@ =~= busy(entries@).take(i + 1));
        }
        i = i + 1;
    }
    proof {
        assert(waiting(entries@).take(i as int) =~= waiting(entries@));
        assert(running(entries@).take(i as int) =~= running(entries@));
        assert(prefilled(entries@).take(i as int) =~= prefilled(entries@));
        assert(busy(entries@).take(i as int) =~= busy(entries@));
    }
    let waiting_total: Result<Option<i64>, LoadTotalOverflow> = add_up(&waiting_tokens);
    let running_total: Result<Option<i64>, LoadTotalOverflow> = add_up(&running_reqs);
    let prefilled_total: Result<Option<i64>, LoadTotalOverflow> = add_up(&prefilled_tokens);
    let busy_total: Result<Option<i64>, LoadTotalOverflow> = add_up(&busy_us);
    match (waiting_total, running_total, prefilled_total, busy_total) {
        (Ok(waiting_total), Ok(running_total), Ok(prefilled_total), Ok(busy_total)) => {
            if entries.len() == 0 {
                return Ok(None);
            }
            Ok(
                Some(
                    PrefillLoadReport {
                        waiting_uncached_tokens: match waiting_total {
                            Some(total) => total,
                            None => 0,
                        },
                        running_reqs: match running_total {
                            Some(total) => total,
                            None => 0,
                        },
                        total_prefill_uncached_tokens: prefilled_total,
                        total_prefill_busy_us: busy_total,
                    },
                ),
            )
        },
        _ => Err(LoadTotalOverflow),
    }
}

/// The prefill report that a worker answered with; nothing where the body is no
/// document or lists no rank.
pub fn parse_prefill_load(body: &[u8]) -> (r: Result<Option<PrefillLoadReport>, LoadTotalOverflow>)
    ensures
        match json_document(body@) {
            Some(document) => {
                &&& r is Ok <==> totals_fit(load_entries(document))
                &&& r matches Ok(report) ==> report == report_of(load_entries(document))
            },
            None => r == Ok::<_, LoadTotalOverflow>(None::<PrefillLoadReport>),
        },
{
    match parse_json(body) {
        Ok(document) => sum_entries(&read_entries(&document)),
        Err(_) => Ok(None),
    }
}

} // verus!
