//! Maps and sets keyed by strings, kept in the order of the strings.

use vstd::prelude::*;

use crate::text::{relate, Relation};

verus! {

/// A map from strings to values, sorted by key.
#[derive(PartialEq, Debug)]
pub struct PathMap<V> {
    entries: Vec<(String, V)>,
}

/// Whether the keys rise strictly, so that none occurs twice.
pub open spec fn keys_rise<V>(entries: Seq<(String, V)>) -> bool {
    forall|i: int, j: int|
        #![trigger entries[i], entries[j]]
        0 <= i < j < entries.len() ==> crate::text::sorts_before(entries[i].0@, entries[j].0@)
}

/// Whether `key` stands at position `i`.
pub open spec fn key_at<V>(entries: Seq<(String, V)>, key: Seq<char>, i: int) -> bool {
    0 <= i < entries.len() && entries[i].0@ == key
}

/// Whether `key` stands at some position.
pub open spec fn has_key<V>(entries: Seq<(String, V)>, key: Seq<char>) -> bool {
    exists|i: int| key_at(entries, key, i)
}

/// The map that a list of entries stands for.
pub open spec fn entries_map<V>(entries: Seq<(String, V)>) -> Map<Seq<char>, V> {
    Map::new(
        |key: Seq<char>| has_key(entries, key),
        |key: Seq<char>| entries[choose|i: int| key_at(entries, key, i)].1,
    )
}

impl<V> View for PathMap<V> {
    type V = Map<Seq<char>, V>;

    open spec fn view(&self) -> Map<Seq<char>, V> {
        entries_map(self.entries())
    }
}

impl<V: DeepView> DeepView for PathMap<V> {
    type V = Map<Seq<char>, V::V>;

    open spec fn deep_view(&self) -> Map<Seq<char>, V::V> {
        Map::new(
            |key: Seq<char>| self@.dom().contains(key),
            |key: Seq<char>| self@[key].deep_view(),
        )
    }
}

impl<V> PathMap<V> {
    /// The entries in the order of their keys.
    pub closed spec fn entries(&self) -> Seq<(String, V)> {
        self.entries@
    }

    #[verifier::type_invariant]
    spec fn sorted(&self) -> bool {
        keys_rise(self.entries@)
    }

    /// An empty map.
    pub fn new() -> (r: Self)
        ensures
            r@ == Map::<Seq<char>, V>::empty(),
            r.entries().len() == 0,
    {
        let r = PathMap { entries: Vec::new() };
        assert(r@ =~= Map::<Seq<char>, V>::empty());
        r
    }

    /// The number of entries.
    pub fn len(&self) -> (n: usize)
        ensures
            n == self.entries().len(),
            keys_rise(self.entries()),
    {
        proof {
            use_type_invariant(self);
        }
        self.entries.len()
    }

    /// The `i`th entry in the order of the keys.
    pub fn entry(&self, i: usize) -> (r: (&str, &V))
        requires
            i < self.entries().len(),
        ensures
            r.0@ == self.entries()[i as int].0@,
            *r.1 == self.entries()[i as int].1,
    {
        (self.entries[i].0.as_str(), &self.entries[i].1)
    }

    /// The value at `key`.
    pub fn get(&self, key: &str) -> (r: Option<&V>)
        ensures
            match r {
                Some(v) => self@.dom().contains(key@) && *v == self@[key@],
                None => !self@.dom().contains(key@),
            },
    {
        proof {
            use_type_invariant(self);
        }
        let (i, found) = locate(&self.entries, key);
        if found {
            proof {
                lemma_entry_value(self.entries@, key@, i as int);
            }
            Some(&self.entries[i].1)
        } else {
            None
        }
    }

    /// Puts `value` in place of what is at `key` and returns that; does nothing where nothing is
    /// there.
    pub fn replace(&mut self, key: &str, value: V) -> (r: Option<V>)
        ensures
            match r {
                Some(was) => old(self)@.dom().contains(key@) && was == old(self)@[key@]
                    && final(self)@ == old(self)@.insert(key@, value),
                None => !old(self)@.dom().contains(key@) && final(self)@ == old(self)@,
            },
    {
        proof {
            use_type_invariant(&*self);
        }
        let (i, found) = locate(&self.entries, key);
        if !found {
            return None;
        }
        let mut entries: Vec<(String, V)> = Vec::new();
        std::mem::swap(&mut entries, &mut self.entries);
        let ghost before = entries@;
        let mut value = value;
        std::mem::swap(&mut entries[i].1, &mut value);
        proof {
            lemma_entry_value(before, key@, i as int);
            lemma_replace(before, i as int, entries@[i as int]);
            assert(entries@ =~= before.update(i as int, entries@[i as int]));
        }
        self.entries = entries;
        Some(value)
    }

    /// The entries in the order of their keys.
    pub fn into_entries(self) -> (r: Vec<(String, V)>)
        ensures
            r@ == self.entries(),
            keys_rise(r@),
    {
        proof {
            use_type_invariant(&self);
        }
        self.entries
    }

    /// The map with those entries.
    pub fn from_entries(entries: Vec<(String, V)>) -> (r: Self)
        requires
            keys_rise(entries@),
        ensures
            r.entries() == entries@,
    {
        PathMap { entries }
    }

    /// Puts `value` at `key`, in place of what was there.
    pub fn insert(&mut self, key: String, value: V)
        ensures
            final(self)@ == old(self)@.insert(key@, value),
    {
        proof {
            use_type_invariant(&*self);
        }
        let (i, found) = locate(&self.entries, key.as_str());
        let mut entries: Vec<(String, V)> = Vec::new();
        std::mem::swap(&mut entries, &mut self.entries);
        let ghost before = entries@;
        if found {
            entries.set(i, (key, value));
            proof {
                lemma_replace(before, i as int, (key, value));
            }
        } else {
            entries.insert(i, (key, value));
            proof {
                lemma_insert(before, i as int, (key, value));
            }
        }
        self.entries = entries;
    }
}

/// The position of `key`, or the position where it would have to stand.
pub fn locate<V>(entries: &Vec<(String, V)>, key: &str) -> (r: (usize, bool))
    requires
        keys_rise(entries@),
    ensures
        r.0 <= entries@.len(),
        r.1 ==> key_at(entries@, key@, r.0 as int),
        !r.1 ==> !has_key(entries@, key@),
        forall|k: int|
            0 <= k < r.0 ==> crate::text::sorts_before(
                (#[trigger] entries@[k]).0@,
                key@,
            ),
        !r.1 ==> forall|k: int|
            r.0 <= k < entries@.len() ==> crate::text::sorts_before(
                key@,
                (#[trigger] entries@[k]).0@,
            ),
{
    let mut lo: usize = 0;
    let mut hi: usize = entries.len();
    while lo < hi
        invariant
            lo <= hi <= entries@.len(),
            keys_rise(entries@),
            forall|k: int|
                0 <= k < lo ==> crate::text::sorts_before(
                    (#[trigger] entries@[k]).0@,
                    key@,
                ),
            forall|k: int|
                hi <= k < entries@.len() ==> crate::text::sorts_before(
                    key@,
                    (#[trigger] entries@[k]).0@,
                ),
        decreases hi - lo,
    {
        let mid: usize = lo + (hi - lo) / 2;
        let ghost middle = entries@[mid as int].0@;
        match relate(entries[mid].0.as_str(), key) {
            Relation::Same => {
                assert(key_at(entries@, key@, mid as int));
                return (mid, true);
            },
            Relation::Before => {
                assert forall|k: int| 0 <= k < mid + 1 implies crate::text::sorts_before(
                    (#[trigger] entries@[k]).0@,
                    key@,
                ) by {
                    crate::text::sorts_before_is_total_order(entries@[k].0@, middle, key@);
                }
                lo = mid + 1;
            },
            Relation::After => {
                assert forall|k: int|
                    mid <= k < entries@.len() implies crate::text::sorts_before(
                    key@,
                    (#[trigger] entries@[k]).0@,
                ) by {
                    crate::text::sorts_before_is_total_order(key@, middle, entries@[k].0@);
                }
                hi = mid;
            },
        }
    }
    assert forall|k: int| !key_at(entries@, key@, k) by {
        crate::text::sorts_before_is_total_order(key@, key@, key@);
    }
    (lo, false)
}

/// The value of each entry is what the map has at its key.
pub proof fn lemma_entry_value<V>(entries: Seq<(String, V)>, key: Seq<char>, i: int)
    requires
        keys_rise(entries),
        key_at(entries, key, i),
    ensures
        entries_map(entries).dom().contains(key),
        entries_map(entries)[key] == entries[i].1,
{
    let j = choose|j: int| key_at(entries, key, j);
    assert(key_at(entries, key, j));
    crate::text::sorts_before_is_total_order(key, key, key);
    assert(i == j);
}

proof fn lemma_replace<V>(entries: Seq<(String, V)>, i: int, e: (String, V))
    requires
        keys_rise(entries),
        key_at(entries, e.0@, i),
    ensures
        keys_rise(entries.update(i, e)),
        entries_map(entries.update(i, e)) == entries_map(entries).insert(e.0@, e.1),
{
    let after = entries.update(i, e);
    assert(keys_rise(after));
    assert forall|k: Seq<char>| has_key(after, k) <==> has_key(entries, k) by {
        if has_key(after, k) {
            let j = choose|j: int| key_at(after, k, j);
            assert(key_at(entries, k, j));
        }
        if has_key(entries, k) {
            let j = choose|j: int| key_at(entries, k, j);
            assert(key_at(after, k, j));
        }
    }
    assert forall|k: Seq<char>| has_key(after, k) implies entries_map(after)[k] == entries_map(
        entries,
    ).insert(e.0@, e.1)[k] by {
        let j = choose|j: int| key_at(after, k, j);
        lemma_entry_value(after, k, j);
        lemma_entry_value(entries, k, j);
        if k == e.0@ {
            lemma_entry_value(after, k, i);
        } else {
            assert(j != i);
        }
    }
    assert(entries_map(after) =~= entries_map(entries).insert(e.0@, e.1));
}

proof fn lemma_insert<V>(entries: Seq<(String, V)>, i: int, e: (String, V))
    requires
        keys_rise(entries),
        0 <= i <= entries.len(),
        !has_key(entries, e.0@),
        forall|k: int|
            0 <= k < i ==> crate::text::sorts_before((#[trigger] entries[k]).0@, e.0@),
        forall|k: int|
            i <= k < entries.len() ==> crate::text::sorts_before(
                e.0@,
                (#[trigger] entries[k]).0@,
            ),
    ensures
        keys_rise(entries.insert(i, e)),
        entries_map(entries.insert(i, e)) == entries_map(entries).insert(e.0@, e.1),
{
    let after = entries.insert(i, e);
    assert forall|a: int, b: int|
        #![trigger after[a], after[b]]
        0 <= a < b < after.len() implies crate::text::sorts_before(after[a].0@, after[b].0@) by {
        let x = if a < i { a } else { a - 1 };
        let y = if b < i { b } else { b - 1 };
        if a != i {
            assert(after[a] == entries[x]);
        }
        if b != i {
            assert(after[b] == entries[y]);
        }
    }
    assert forall|k: Seq<char>| #[trigger]
        has_key(after, k) <==> k == e.0@ || has_key(entries, k) by {
        if has_key(after, k) {
            let j = choose|j: int| key_at(after, k, j);
            if j < i {
                assert(key_at(entries, k, j));
            } else if j > i {
                assert(key_at(entries, k, j - 1));
            }
        }
        if has_key(entries, k) {
            let j = choose|j: int| key_at(entries, k, j);
            assert(key_at(after, k, if j < i { j } else { j + 1 }));
        }
        assert(key_at(after, e.0@, i));
    }
    assert forall|k: Seq<char>| has_key(after, k) implies entries_map(after)[k] == entries_map(
        entries,
    ).insert(e.0@, e.1)[k] by {
        let j = choose|j: int| key_at(after, k, j);
        lemma_entry_value(after, k, j);
        if j < i {
            assert(key_at(entries, k, j));
            lemma_entry_value(entries, k, j);
        } else if j > i {
            assert(key_at(entries, k, j - 1));
            lemma_entry_value(entries, k, j - 1);
        }
    }
    assert(entries_map(after) =~= entries_map(entries).insert(e.0@, e.1));
}

} // verus!
