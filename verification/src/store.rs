//! The prefill state of all workers, by worker URL, and the fleet's median rate.
use crate::binary64::Binary64;
use crate::number::{at_most, less, positive, Number};
use crate::prefill::{number_of, PrefillModel, PrefillState};
use dashmap::DashMap;
use vstd::prelude::*;
use vstd::set_lib::lemma_len_subset;

verus! {

/// The sharded hash map that holds the states.
#[verifier::external_type_specification]
#[verifier::external_body]
#[verifier::reject_recursive_types(K)]
#[verifier::reject_recursive_types(V)]
#[verifier::reject_recursive_types(S)]
pub struct ExDashMap<K, V, S>(DashMap<K, V, S>);

/// What the map holds, by key. The map can be written through a shared
/// reference; the functions below that write to it take it by unique reference
/// instead, and nothing else in this crate reaches it.
pub uninterp spec fn contents(map: DashMap<String, PrefillState>) -> Map<Seq<char>, PrefillState>;

/// `DashMap::new`: the map starts empty.
#[verifier::external_body]
fn map_new() -> (r: DashMap<String, PrefillState>)
    ensures
        (contents(r) == Map::<Seq<char>, PrefillState>::empty()),
{
    DashMap::new()
}

/// `DashMap::get`: a copy of the value under the key, if there is one.
#[verifier::external_body]
fn map_get(map: &DashMap<String, PrefillState>, key: &str) -> (r: Option<PrefillState>)
    ensures
        r == (if contents(*map).contains_key(key@) {
            Some(contents(*map)[key@])
        } else {
            None::<PrefillState>
        }),
{
    map.get(key).map(|entry| *entry.value())
}

/// `DashMap::insert`: the value replaces what was under the key.
#[verifier::external_body]
fn map_insert(map: &mut DashMap<String, PrefillState>, key: String, value: PrefillState)
    ensures
        contents(*final(map)) == contents(*old(map)).insert(key@, value),
{
    map.insert(key, value);
}

/// `DashMap::remove`: the key is gone, the others stay.
#[verifier::external_body]
fn map_remove(map: &mut DashMap<String, PrefillState>, key: &str)
    ensures
        contents(*final(map)) == contents(*old(map)).remove(key@),
{
    map.remove(key);
}

/// `DashMap::clear`: the map is empty.
#[verifier::external_body]
fn map_clear(map: &mut DashMap<String, PrefillState>)
    ensures
        (contents(*final(map)) == Map::<Seq<char>, PrefillState>::empty()),
{
    map.clear();
}

/// `DashMap::iter`: every entry comes once, with its key; the order is open.
#[verifier::external_body]
fn map_entries(map: &DashMap<String, PrefillState>) -> (r: Vec<(String, PrefillState)>)
    ensures
        forall|i: int|
            0 <= i < r@.len() ==> {
                &&& contents(*map).contains_key((#[trigger] r@[i]).0@)
                &&& contents(*map)[r@[i].0@] == r@[i].1
            },
        forall|i: int, j: int|
            #![trigger r@[i], r@[j]]
            0 <= i < j < r@.len() ==> r@[i].0@ != r@[j].0@,
        forall|key: Seq<char>| #[trigger]
            contents(*map).contains_key(key) ==> exists|i: int|
                0 <= i < r@.len() && (#[trigger] r@[i]).0@ == key,
{
    map.iter().map(|entry| (entry.key().clone(), *entry.value())).collect()
}

/// The prefill state of all workers, by URL.
#[derive(Debug)]
pub struct PrefillStore {
    states: DashMap<String, PrefillState>,
}

/// The states by URL, as values.
pub open spec fn models(states: Map<Seq<char>, PrefillState>) -> Map<Seq<char>, PrefillModel> {
    Map::new(|url: Seq<char>| states.contains_key(url), |url: Seq<char>| states[url]@)
}

impl View for PrefillStore {
    type V = Map<Seq<char>, PrefillModel>;

    closed spec fn view(&self) -> Map<Seq<char>, PrefillModel> {
        models(contents(self.states))
    }
}

/// The state kept for `url`, or a fresh one.
pub open spec fn state_of(states: Map<Seq<char>, PrefillModel>, url: Seq<char>) -> PrefillModel {
    if states.contains_key(url) {
        states[url]
    } else {
        PrefillModel::fresh()
    }
}

impl PrefillStore {
    /// A store without any state.
    pub fn new() -> (r: Self)
        ensures
            r@ == Map::<Seq<char>, PrefillModel>::empty(),
    {
        let r: PrefillStore = PrefillStore { states: map_new() };
        proof {
            assert(r@ =~= Map::<Seq<char>, PrefillModel>::empty());
        }
        r
    }

    /// The state kept for `url`.
    pub fn get(&self, url: &str) -> (r: Option<PrefillState>)
        ensures
            match r {
                Some(state) => self@.contains_key(url@) && state@ == self@[url@],
                None => !self@.contains_key(url@),
            },
    {
        map_get(&self.states, url)
    }

    /// Keeps `state` for `url`.
    pub fn put(&mut self, url: String, state: PrefillState)
        ensures
            final(self)@ == old(self)@.insert(url@, state@),
    {
        let ghost before = self@;
        map_insert(&mut self.states, url, state);
        proof {
            assert(self@ =~= before.insert(url@, state@));
        }
    }

    /// Forgets the state of `url`.
    pub fn remove(&mut self, url: &str)
        ensures
            final(self)@ == old(self)@.remove(url@),
    {
        let ghost before = self@;
        map_remove(&mut self.states, url);
        proof {
            assert(self@ =~= before.remove(url@));
        }
    }

    /// Forgets all states.
    pub fn clear(&mut self)
        ensures
            final(self)@ == Map::<Seq<char>, PrefillModel>::empty(),
    {
        map_clear(&mut self.states);
        proof {
            assert(self@ =~= Map::<Seq<char>, PrefillModel>::empty());
        }
    }

    /// The fleet's median rate: the middle one of the positive measured rates,
    /// the upper one of the two where their number is even.
    pub fn median_rate(&self) -> (r: Option<Binary64>)
        ensures
            number_of(r) == median_of(self@),
            r matches Some(rate) ==> is_median(self@, rate@),
    {
        let entries: Vec<(String, PrefillState)> = map_entries(&self.states);
        let mut sorted: Vec<(String, Binary64)> = Vec::new();
        let mut i: usize = 0;
        while i < entries.len()
            invariant
                i <= entries@.len(),
                forall|k: int|
                    0 <= k < entries@.len() ==> {
                        &&& self@.contains_key((#[trigger] entries@[k]).0@)
                        &&& self@[entries@[k].0@] == entries@[k].1@
                    },
                forall|j: int, k: int|
                    #![trigger entries@[j], entries@[k]]
                    0 <= j < k < entries@.len() ==> entries@[j].0@ != entries@[k].0@,
                is_rate_list(self@, sorted@),
                forall|k: int|
                    0 <= k < i ==> (has_rate((#[trigger] entries@[k]).1@) <==> lists(
                        sorted@,
                        entries@[k].0@,
                    )),
                forall|k: int|
                    i <= k < entries@.len() ==> !lists(sorted@, (#[trigger] entries@[k]).0@),
            decreases entries@.len() - i,
        {
            let ghost before = sorted@;
            if let Some(rate) = entries[i].1.rate_tokens_per_us {
                if rate.is_positive() {
                    insert_rate(&mut sorted, entries[i].0.clone(), rate);
                    proof {
                        lemma_insert(self@, before, sorted@, entries@[i as int].0, rate);
                    }
                }
            }
            proof {
                assert forall|k: int| 0 <= k < i + 1 implies (has_rate(
                    (#[trigger] entries@[k]).1@,
                ) <==> lists(sorted@, entries@[k].0@)) by {
                    if k < i {
                        assert(entries@[k].0@ != entries@[i as int].0@);
                    }
                }
                assert forall|k: int| i + 1 <= k < entries@.len() implies !lists(
                    sorted@,
                    (#[trigger] entries@[k]).0@,
                ) by {
                    assert(entries@[i as int].0@ != entries@[k].0@);
                }
            }
            i = i + 1;
        }
        proof {
            assert forall|url: Seq<char>| #[trigger] rated(self@).contains(url) <==> lists(
                sorted@,
                url,
            ) by {
                if rated(self@).contains(url) {
                    assert(contents(self.states).contains_key(url));
                    let k = choose|k: int|
                        0 <= k < entries@.len() && (#[trigger] entries@[k]).0@ == url;
                    assert(has_rate(entries@[k].1@));
                }
                if lists(sorted@, url) {
                    let k = choose|k: int| 0 <= k < sorted@.len() && (#[trigger] sorted@[k]).0@ == url;
                    assert(has_rate(self@[sorted@[k].0@]));
                }
            }
        }
        if sorted.len() == 0 {
            proof {
                assert(rated(self@) =~= Set::<Seq<char>>::empty());
            }
            return None;
        }
        proof {
            lemma_middle_is_median(self@, sorted@);
            let middle = sorted@[sorted@.len() as int / 2].1@;
            lemma_median_is_unique(self@, middle, choose|rate: Number| is_median(self@, rate));
            assert(rated(self@).contains(sorted@[0].0@)) by {
                assert(lists(sorted@, sorted@[0].0@));
            }
        }
        Some(sorted[sorted.len() / 2].1)
    }
}

/// Whether a positive rate has been measured.
pub open spec fn has_rate(state: PrefillModel) -> bool {
    state.rate matches Some(rate) && positive(rate)
}

/// The workers with a positive measured rate.
pub open spec fn rated(states: Map<Seq<char>, PrefillModel>) -> Set<Seq<char>> {
    Set::new(|url: Seq<char>| states.contains_key(url) && has_rate(states[url]))
}

/// The measured rate of a worker.
pub open spec fn rate_of(states: Map<Seq<char>, PrefillModel>, url: Seq<char>) -> Number {
    states[url].rate->0
}

/// The workers whose positive measured rate is below `rate`.
pub open spec fn slower(states: Map<Seq<char>, PrefillModel>, rate: Number) -> Set<Seq<char>> {
    rated(states).filter(|url: Seq<char>| less(rate_of(states, url), rate))
}

/// The workers whose positive measured rate is at most `rate`.
pub open spec fn no_faster(states: Map<Seq<char>, PrefillModel>, rate: Number) -> Set<Seq<char>> {
    rated(states).filter(|url: Seq<char>| at_most(rate_of(states, url), rate))
}

/// Whether `rate` is the middle one of the positive measured rates: as many
/// workers as half the rated ones, rounded down, can be slower, and more than
/// that many are no faster.
pub open spec fn is_median(states: Map<Seq<char>, PrefillModel>, rate: Number) -> bool {
    &&& rated(states).finite()
    &&& exists|url: Seq<char>| #[trigger]
        rated(states).contains(url) && rate_of(states, url) == rate
    &&& slower(states, rate).len() <= rated(states).len() / 2
    &&& no_faster(states, rate).len() > rated(states).len() / 2
}

/// The middle one of the positive measured rates, if there is any.
pub open spec fn median_of(states: Map<Seq<char>, PrefillModel>) -> Option<Number> {
    if rated(states) == Set::<Seq<char>>::empty() {
        None
    } else {
        Some(choose|rate: Number| is_median(states, rate))
    }
}

/// Whether the list holds an entry for `url`.
spec fn lists(list: Seq<(String, Binary64)>, url: Seq<char>) -> bool {
    exists|k: int| 0 <= k < list.len() && (#[trigger] list[k]).0@ == url
}

/// A list of workers with their positive rates, in ascending order of rate.
spec fn is_rate_list(states: Map<Seq<char>, PrefillModel>, list: Seq<(String, Binary64)>) -> bool {
    &&& forall|k: int|
        0 <= k < list.len() ==> {
            &&& states.contains_key((#[trigger] list[k]).0@)
            &&& states[list[k].0@].rate == Some(list[k].1@)
            &&& positive(list[k].1@)
        }
    &&& forall|j: int, k: int|
        #![trigger list[j], list[k]]
        0 <= j < k < list.len() ==> list[j].0@ != list[k].0@ && !less(list[k].1@, list[j].1@)
}

/// Inserts a rate behind all that are not greater.
fn insert_rate(list: &mut Vec<(String, Binary64)>, url: String, rate: Binary64)
    ensures
        exists|at: int|
            {
                &&& 0 <= at <= old(list)@.len()
                &&& #[trigger] old(list)@.insert(at, (url, rate)) == final(list)@
                &&& forall|k: int| 0 <= k < at ==> !less(rate@, (#[trigger] old(list)@[k]).1@)
                &&& at < old(list)@.len() ==> less(rate@, old(list)@[at].1@)
            },
{
    let mut at: usize = 0;
    while at < list.len() && !rate.is_less_than(list[at].1)
        invariant
            at <= list@.len(),
            list@ == old(list)@,
            forall|k: int| 0 <= k < at ==> !less(rate@, (#[trigger] list@[k]).1@),
        decreases list@.len() - at,
    {
        at = at + 1;
    }
    list.insert(at, (url, rate));
}

proof fn lemma_insert(
    states: Map<Seq<char>, PrefillModel>,
    before: Seq<(String, Binary64)>,
    after: Seq<(String, Binary64)>,
    url: String,
    rate: Binary64,
)
    requires
        is_rate_list(states, before),
        states.contains_key(url@),
        states[url@].rate == Some(rate@),
        positive(rate@),
        !lists(before, url@),
        exists|at: int|
            {
                &&& 0 <= at <= before.len()
                &&& #[trigger] before.insert(at, (url, rate)) == after
                &&& forall|k: int| 0 <= k < at ==> !less(rate@, (#[trigger] before[k]).1@)
                &&& at < before.len() ==> less(rate@, before[at].1@)
            },
    ensures
        is_rate_list(states, after),
        forall|other: Seq<char>| #[trigger]
            lists(after, other) <==> (lists(before, other) || other == url@),
{
    let at = choose|at: int|
        {
            &&& 0 <= at <= before.len()
            &&& #[trigger] before.insert(at, (url, rate)) == after
            &&& forall|k: int| 0 <= k < at ==> !less(rate@, (#[trigger] before[k]).1@)
            &&& at < before.len() ==> less(rate@, before[at].1@)
        };
    let place = |k: int|
        if k < at {
            k
        } else {
            k - 1
        };
    assert forall|k: int| 0 <= k < after.len() implies {
        &&& states.contains_key((#[trigger] after[k]).0@)
        &&& states[after[k].0@].rate == Some(after[k].1@)
        &&& positive(after[k].1@)
    } by {
        if k != at {
            assert(after[k] == before[place(k)]);
        }
    }
    assert forall|j: int, k: int|
        #![trigger after[j], after[k]]
        0 <= j < k < after.len() implies after[j].0@ != after[k].0@ && !less(
        after[k].1@,
        after[j].1@,
    ) by {
        if j != at {
            assert(after[j] == before[place(j)]);
        }
        if k != at {
            assert(after[k] == before[place(k)]);
        }
        if j == at {
            if k - 1 > at {
                assert(!less(before[k - 1].1@, before[at].1@));
            }
        }
    }
    assert forall|other: Seq<char>| #[trigger] lists(after, other) <==> (lists(before, other)
        || other == url@) by {
        if lists(after, other) {
            let k = choose|k: int| 0 <= k < after.len() && (#[trigger] after[k]).0@ == other;
            if k != at {
                assert(after[k] == before[place(k)]);
            }
        }
        if lists(before, other) {
            let k = choose|k: int| 0 <= k < before.len() && (#[trigger] before[k]).0@ == other;
            if k < at {
                assert(after[k] == before[k]);
            } else {
                assert(after[k + 1] == before[k]);
            }
        }
        if other == url@ {
            assert(after[at].0@ == other);
        }
    }
}

proof fn lemma_middle_is_median(
    states: Map<Seq<char>, PrefillModel>,
    list: Seq<(String, Binary64)>,
)
    requires
        is_rate_list(states, list),
        list.len() > 0,
        forall|url: Seq<char>| #[trigger] rated(states).contains(url) <==> lists(list, url),
    ensures
        is_median(states, list[list.len() as int / 2].1@),
{
    let urls = Seq::new(list.len(), |k: int| list[k].0@);
    let middle = list.len() as int / 2;
    let rate = list[middle].1@;
    assert(urls.no_duplicates()) by {
        assert forall|j: int, k: int| 0 <= j < k < urls.len() implies urls[j] != urls[k] by {
            assert(list[j].0@ != list[k].0@);
        }
    }
    assert forall|url: Seq<char>| rated(states).contains(url) <==> urls.to_set().contains(url) by {
        if rated(states).contains(url) {
            let k = choose|k: int| 0 <= k < list.len() && (#[trigger] list[k]).0@ == url;
            assert(urls[k] == url);
        }
        if urls.to_set().contains(url) {
            let k = choose|k: int| 0 <= k < urls.len() && urls[k] == url;
            assert(list[k].0@ == url);
        }
    }
    assert(rated(states) =~= urls.to_set());
    urls.unique_seq_to_set();
    vstd::seq_lib::seq_to_set_is_finite(urls);
    assert(rated(states).contains(list[middle].0@)) by {
        assert(lists(list, list[middle].0@));
    }
    let low = urls.take(middle);
    low.unique_seq_to_set();
    vstd::seq_lib::seq_to_set_is_finite(low);
    assert(slower(states, rate).subset_of(low.to_set())) by {
        assert forall|url: Seq<char>| slower(states, rate).contains(url) implies low.to_set().contains(
            url,
        ) by {
            let k = choose|k: int| 0 <= k < list.len() && (#[trigger] list[k]).0@ == url;
            if k > middle {
                assert(!less(list[k].1@, list[middle].1@));
            }
            assert(low[k] == url);
        }
    }
    lemma_len_subset(slower(states, rate), low.to_set());
    let high = urls.take(middle + 1);
    high.unique_seq_to_set();
    assert(high.to_set().subset_of(no_faster(states, rate))) by {
        assert forall|url: Seq<char>| high.to_set().contains(url) implies no_faster(
            states,
            rate,
        ).contains(url) by {
            let k = choose|k: int| 0 <= k < high.len() && high[k] == url;
            assert(list[k].0@ == url);
            if k < middle {
                assert(!less(list[middle].1@, list[k].1@));
            }
            assert(lists(list, url));
        }
    }
    assert(no_faster(states, rate).finite()) by {
        assert(no_faster(states, rate).subset_of(rated(states)));
        lemma_len_subset(no_faster(states, rate), rated(states));
    }
    lemma_len_subset(high.to_set(), no_faster(states, rate));
}

/// There is one median: what the store returns does not depend on the order in
/// which the map hands its entries out.
pub proof fn lemma_median_is_unique(
    states: Map<Seq<char>, PrefillModel>,
    first: Number,
    second: Number,
)
    requires
        is_median(states, first),
        is_median(states, second),
    ensures
        first == second,
{
    let a = choose|url: Seq<char>| #[trigger]
        rated(states).contains(url) && rate_of(states, url) == first;
    let b = choose|url: Seq<char>| #[trigger]
        rated(states).contains(url) && rate_of(states, url) == second;
    if less(first, second) {
        assert(no_faster(states, first).subset_of(slower(states, second)));
        assert(slower(states, second).subset_of(rated(states)));
        lemma_len_subset(slower(states, second), rated(states));
        lemma_len_subset(no_faster(states, first), slower(states, second));
    } else if less(second, first) {
        assert(no_faster(states, second).subset_of(slower(states, first)));
        assert(slower(states, first).subset_of(rated(states)));
        lemma_len_subset(slower(states, first), rated(states));
        lemma_len_subset(no_faster(states, second), slower(states, first));
    }
}

} // verus!
