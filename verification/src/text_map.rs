//! A map from text to values, kept as a list of entries.

use crate::text::same_text;
use vstd::prelude::*;

verus! {

/// The map that a list of entries stands for. Where a key occurs twice, the
/// first entry counts.
pub open spec fn entries_map<V>(entries: Seq<(String, V)>) -> Map<Seq<char>, V>
    decreases entries.len(),
{
    if entries.len() == 0 {
        Map::empty()
    } else {
        entries_map(entries.drop_first()).insert(entries[0].0@, entries[0].1)
    }
}

/// Whether no entry before position `i` has the key `key`.
pub open spec fn absent_before<V>(entries: Seq<(String, V)>, key: Seq<char>, i: int) -> bool {
    forall|j: int| 0 <= j < i ==> #[trigger] entries[j].0@ != key
}

proof fn lemma_first_entry<V>(entries: Seq<(String, V)>, key: Seq<char>, i: int)
    requires
        0 <= i < entries.len(),
        entries[i].0@ == key,
        absent_before(entries, key, i),
    ensures
        entries_map(entries).contains_key(key),
        entries_map(entries)[key] == entries[i].1,
    decreases i,
{
    if i > 0 {
        let rest = entries.drop_first();
        assert(rest[i - 1] == entries[i]);
        assert(entries[0].0@ != key);
        assert forall|j: int| 0 <= j < i - 1 implies #[trigger] rest[j].0@ != key by {
            assert(rest[j] == entries[j + 1]);
        }
        lemma_first_entry(rest, key, i - 1);
    }
}

proof fn lemma_no_entry<V>(entries: Seq<(String, V)>, key: Seq<char>)
    requires
        absent_before(entries, key, entries.len() as int),
    ensures
        !entries_map(entries).contains_key(key),
    decreases entries.len(),
{
    if entries.len() > 0 {
        let rest = entries.drop_first();
        assert(entries[0].0@ != key);
        assert forall|j: int| 0 <= j < rest.len() implies #[trigger] rest[j].0@ != key by {
            assert(rest[j] == entries[j + 1]);
        }
        lemma_no_entry(rest, key);
    }
}

proof fn lemma_replaced_entry<V>(entries: Seq<(String, V)>, i: int, entry: (String, V))
    requires
        0 <= i < entries.len(),
        entries[i].0@ == entry.0@,
        absent_before(entries, entry.0@, i),
    ensures
        entries_map(entries.update(i, entry)) == entries_map(entries).insert(entry.0@, entry.1),
    decreases i,
{
    let changed = entries.update(i, entry);
    if i == 0 {
        assert(changed.drop_first() =~= entries.drop_first());
        assert(entries_map(changed) =~= entries_map(entries).insert(entry.0@, entry.1));
    } else {
        let rest = entries.drop_first();
        assert(changed.drop_first() =~= rest.update(i - 1, entry));
        assert(rest[i - 1] == entries[i]);
        assert(entries[0].0@ != entry.0@);
        assert forall|j: int| 0 <= j < i - 1 implies #[trigger] rest[j].0@ != entry.0@ by {
            assert(rest[j] == entries[j + 1]);
        }
        lemma_replaced_entry(rest, i - 1, entry);
        assert(entries_map(changed) =~= entries_map(entries).insert(entry.0@, entry.1));
    }
}

proof fn lemma_added_entry<V>(entries: Seq<(String, V)>, entry: (String, V))
    requires
        absent_before(entries, entry.0@, entries.len() as int),
    ensures
        entries_map(entries.push(entry)) == entries_map(entries).insert(entry.0@, entry.1),
    decreases entries.len(),
{
    let longer = entries.push(entry);
    if entries.len() == 0 {
        reveal_with_fuel(entries_map, 2);
        assert(longer.drop_first() =~= Seq::<(String, V)>::empty());
        assert(entries_map(longer) =~= entries_map(entries).insert(entry.0@, entry.1));
    } else {
        let rest = entries.drop_first();
        assert(longer.drop_first() =~= rest.push(entry));
        assert(entries[0].0@ != entry.0@);
        assert forall|j: int| 0 <= j < rest.len() implies #[trigger] rest[j].0@ != entry.0@ by {
            assert(rest[j] == entries[j + 1]);
        }
        lemma_added_entry(rest, entry);
        assert(entries_map(longer) =~= entries_map(entries).insert(entry.0@, entry.1));
    }
}

/// A map from text to values.
#[derive(Debug)]
pub struct TextMap<V> {
    entries: Vec<(String, V)>,
}

impl<V> View for TextMap<V> {
    type V = Map<Seq<char>, V>;

    closed spec fn view(&self) -> Map<Seq<char>, V> {
        entries_map(self.entries@)
    }
}

impl<V> TextMap<V> {
    /// The empty map.
    pub fn new() -> (r: Self)
        ensures
            r@ == Map::<Seq<char>, V>::empty(),
    {
        TextMap { entries: Vec::new() }
    }

    /// The position of the first entry for `key`.
    fn position(&self, key: &str) -> (r: Option<usize>)
        ensures
            match r {
                Some(i) => i < self.entries@.len() && self.entries@[i as int].0@ == key@
                    && absent_before(self.entries@, key@, i as int),
                None => absent_before(self.entries@, key@, self.entries@.len() as int),
            },
    {
        let mut i: usize = 0;
        while i < self.entries.len()
            invariant
                i <= self.entries@.len(),
                absent_before(self.entries@, key@, i as int),
            decreases self.entries@.len() - i,
        {
            if same_text(self.entries[i].0.as_str(), key) {
                return Some(i);
            }
            i = i + 1;
        }
        None
    }

    /// The value stored under `key`.
    pub fn get(&self, key: &str) -> (r: Option<&V>)
        ensures
            match r {
                Some(v) => self@.contains_key(key@) && self@[key@] == *v,
                None => !self@.contains_key(key@),
            },
    {
        match self.position(key) {
            Some(i) => {
                proof {
                    lemma_first_entry(self.entries@, key@, i as int);
                }
                Some(&self.entries[i].1)
            },
            None => {
                proof {
                    lemma_no_entry(self.entries@, key@);
                }
                None
            },
        }
    }

    /// Stores `value` under `key`, in place of what stood there.
    pub fn insert(&mut self, key: String, value: V)
        ensures
            final(self)@ == old(self)@.insert(key@, value),
    {
        match self.position(key.as_str()) {
            Some(i) => {
                proof {
                    lemma_replaced_entry(self.entries@, i as int, (key, value));
                }
                self.entries[i] = (key, value);
            },
            None => {
                proof {
                    lemma_added_entry(self.entries@, (key, value));
                }
                self.entries.push((key, value));
            },
        }
    }

    /// The keys of the map.
    pub fn keys(&self) -> (r: Vec<String>)
        ensures
            forall|i: int| 0 <= i < r@.len() ==> self@.contains_key(#[trigger] r@[i]@),
            forall|k: Seq<char>| self@.contains_key(k) ==> exists|i: int| 0 <= i < r@.len() && #[trigger] r@[i]@ == k,
    {
        let mut r: Vec<String> = Vec::new();
        let mut i: usize = 0;
        while i < self.entries.len()
            invariant
                i <= self.entries@.len(),
                r@.len() == i,
                forall|j: int| 0 <= j < i ==> #[trigger] r@[j]@ == self.entries@[j].0@,
            decreases self.entries@.len() - i,
        {
            r.push(self.entries[i].0.clone());
            i = i + 1;
        }
        proof {
            assert forall|j: int| 0 <= j < r@.len() implies self@.contains_key(#[trigger] r@[j]@) by {
                lemma_listed_key(self.entries@, j);
            }
            assert forall|k: Seq<char>| self@.contains_key(k) implies exists|j: int|
                0 <= j < r@.len() && #[trigger] r@[j]@ == k by {
                if forall|j: int| 0 <= j < r@.len() ==> #[trigger] r@[j]@ != k {
                    assert forall|j: int| 0 <= j < self.entries@.len() implies #[trigger] self.entries@[j].0@ != k by {
                        assert(r@[j]@ != k);
                    }
                    lemma_no_entry(self.entries@, k);
                }
            }
        }
        r
    }
}

proof fn lemma_listed_key<V>(entries: Seq<(String, V)>, i: int)
    requires
        0 <= i < entries.len(),
    ensures
        entries_map(entries).contains_key(entries[i].0@),
    decreases i,
{
    if i > 0 {
        lemma_listed_key(entries.drop_first(), i - 1);
    }
}

} // verus!
