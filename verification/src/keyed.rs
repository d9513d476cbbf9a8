//! Values keyed by text, each key once.
use vstd::prelude::*;

verus! {

/// A list of values keyed by text. No key occurs twice.
#[derive(Debug)]
pub struct KeyedList<T> {
    entries: Vec<(String, T)>,
}

/// The values of a list of entries without repeated keys, by key.
pub open spec fn by_key<T>(entries: Seq<(String, T)>) -> Map<Seq<char>, T>
    decreases entries.len(),
{
    if entries.len() == 0 {
        Map::empty()
    } else {
        by_key(entries.drop_last()).insert(entries.last().0@, entries.last().1)
    }
}

/// Whether all keys differ.
pub open spec fn distinct_keys<T>(entries: Seq<(String, T)>) -> bool {
    forall|i: int, j: int|
        #![trigger entries[i], entries[j]]
        0 <= i < j < entries.len() ==> entries[i].0@ != entries[j].0@
}

proof fn lemma_by_key<T>(entries: Seq<(String, T)>, key: Seq<char>)
    ensures
        by_key(entries).contains_key(key) <==> exists|i: int|
            0 <= i < entries.len() && (#[trigger] entries[i]).0@ == key,
    decreases entries.len(),
{
    if entries.len() > 0 {
        let before = entries.drop_last();
        lemma_by_key(before, key);
        if by_key(entries).contains_key(key) {
            if entries.last().0@ == key {
                assert(entries[entries.len() - 1].0@ == key);
            } else {
                let i = choose|i: int| 0 <= i < before.len() && (#[trigger] before[i]).0@ == key;
                assert(entries[i].0@ == key);
            }
        }
        if exists|i: int| 0 <= i < entries.len() && (#[trigger] entries[i]).0@ == key {
            let i = choose|i: int| 0 <= i < entries.len() && (#[trigger] entries[i]).0@ == key;
            if i < before.len() {
                assert(before[i].0@ == key);
            }
        }
    }
}

proof fn lemma_value_at<T>(entries: Seq<(String, T)>, at: int)
    requires
        distinct_keys(entries),
        0 <= at < entries.len(),
    ensures
        by_key(entries).contains_key(entries[at].0@),
        by_key(entries)[entries[at].0@] == entries[at].1,
    decreases entries.len(),
{
    let before = entries.drop_last();
    if at < before.len() {
        assert forall|i: int, j: int|
            #![trigger before[i], before[j]]
            0 <= i < j < before.len() implies before[i].0@ != before[j].0@ by {
            assert(entries[i].0@ != entries[j].0@);
        }
        lemma_value_at(before, at);
        assert(entries[at].0@ != entries[entries.len() - 1].0@);
    }
}

/// Replacing the value at one position replaces it under that key.
proof fn lemma_replace<T>(entries: Seq<(String, T)>, at: int, key: String, value: T)
    requires
        distinct_keys(entries),
        0 <= at < entries.len(),
        entries[at].0@ == key@,
    ensures
        distinct_keys(entries.update(at, (key, value))),
        by_key(entries.update(at, (key, value))) =~= by_key(entries).insert(key@, value),
    decreases entries.len(),
{
    let changed = entries.update(at, (key, value));
    let before = entries.drop_last();
    assert forall|i: int, j: int|
        #![trigger changed[i], changed[j]]
        0 <= i < j < changed.len() implies changed[i].0@ != changed[j].0@ by {
        assert(entries[i].0@ != entries[j].0@);
    }
    if at < before.len() {
        assert forall|i: int, j: int|
            #![trigger before[i], before[j]]
            0 <= i < j < before.len() implies before[i].0@ != before[j].0@ by {
            assert(entries[i].0@ != entries[j].0@);
        }
        lemma_replace(before, at, key, value);
        assert(changed.drop_last() =~= before.update(at, (key, value)));
        assert(entries[at].0@ != entries[entries.len() - 1].0@);
    } else {
        assert(changed.drop_last() =~= before);
    }
}

impl<T> KeyedList<T> {
    #[verifier::type_invariant]
    spec fn keys_differ(self) -> bool {
        distinct_keys(self.entries@)
    }

    /// The entries in the order in which their keys came.
    pub closed spec fn entries(&self) -> Seq<(String, T)> {
        self.entries@
    }

    /// An empty list.
    pub fn new() -> (r: Self)
        ensures
            r@ == Map::<Seq<char>, T>::empty(),
            r.entries().len() == 0,
    {
        KeyedList { entries: Vec::new() }
    }

    pub fn len(&self) -> (r: usize)
        ensures
            r == self.entries().len(),
            self@ == by_key(self.entries()),
    {
        self.entries.len()
    }

    pub fn is_empty(&self) -> (r: bool)
        ensures
            r == (self.entries().len() == 0),
            r == (self@ == Map::<Seq<char>, T>::empty()),
    {
        proof {
            if self.entries@.len() > 0 {
                assert(self@.contains_key(self.entries@.last().0@));
            }
        }
        self.entries.len() == 0
    }

    /// Where `key` stands in the list.
    fn position(&self, key: &String) -> (r: Option<usize>)
        ensures
            match r {
                Some(at) => at < self.entries@.len() && self.entries@[at as int].0@ == key@,
                None => forall|i: int|
                    0 <= i < self.entries@.len() ==> (#[trigger] self.entries@[i]).0@ != key@,
            },
    {
        let mut i: usize = 0;
        while i < self.entries.len()
            invariant
                i <= self.entries@.len(),
                forall|k: int| 0 <= k < i ==> (#[trigger] self.entries@[k]).0@ != key@,
            decreases self.entries@.len() - i,
        {
            if self.entries[i].0 == *key {
                return Some(i);
            }
            i = i + 1;
        }
        None
    }

    /// The value under `key`.
    pub fn get(&self, key: &String) -> (r: Option<&T>)
        ensures
            match r {
                Some(value) => self@.contains_key(key@) && *value == self@[key@],
                None => !self@.contains_key(key@),
            },
    {
        proof {
            use_type_invariant(self);
            lemma_by_key(self.entries@, key@);
        }
        match self.position(key) {
            Some(at) => {
                proof {
                    lemma_value_at(self.entries@, at as int);
                }
                Some(&self.entries[at].1)
            },
            None => None,
        }
    }

    /// Puts `value` under `key`, in place of what was there.
    pub fn insert(&mut self, key: String, value: T)
        ensures
            final(self)@ == old(self)@.insert(key@, value),
    {
        proof {
            use_type_invariant(&*self);
        }
        let mut entries: Vec<(String, T)> = Vec::new();
        let at: Option<usize> = self.position(&key);
        std::mem::swap(&mut entries, &mut self.entries);
        let ghost before = entries@;
        match at {
            Some(at) => {
                proof {
                    lemma_replace(before, at as int, key, value);
                }
                entries.set(at, (key, value));
            },
            None => {
                entries.push((key, value));
                proof {
                    assert(entries@.drop_last() =~= before);
                }
            },
        }
        self.entries = entries;
    }

    /// The key and the value at a position of the list.
    pub fn entry(&self, at: usize) -> (r: (&String, &T))
        requires
            at < self.entries().len(),
        ensures
            *r.0 == self.entries()[at as int].0,
            *r.1 == self.entries()[at as int].1,
            self@.contains_key(r.0@),
            self@[r.0@] == *r.1,
            !by_key(self.entries().take(at as int)).contains_key(r.0@),
    {
        proof {
            use_type_invariant(self);
            lemma_value_at(self.entries@, at as int);
            let before = self.entries@.take(at as int);
            lemma_by_key(before, self.entries@[at as int].0@);
            assert forall|i: int| 0 <= i < before.len() implies (#[trigger] before[i]).0@
                != self.entries@[at as int].0@ by {
                assert(before[i] == self.entries@[i]);
            }
        }
        (&self.entries[at].0, &self.entries[at].1)
    }
}

impl<T> View for KeyedList<T> {
    type V = Map<Seq<char>, T>;

    /// The values by key.
    closed spec fn view(&self) -> Map<Seq<char>, T> {
        by_key(self.entries@)
    }
}

} // verus!
