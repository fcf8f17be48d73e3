//! A map keyed by strings, kept as a list.

use vstd::prelude::*;
use crate::text::same;

verus! {

/// A map from strings to values.
pub struct Table<V> {
    entries: Vec<(String, V)>,
}

/// The value behind the first entry with the given key.
pub open spec fn lookup<V>(entries: Seq<(String, V)>, key: Seq<char>) -> Option<V>
    decreases entries.len(),
{
    if entries.len() == 0 {
        None
    } else if entries[0].0@ == key {
        Some(entries[0].1)
    } else {
        lookup(entries.drop_first(), key)
    }
}

/// The first entry with the key decides.
proof fn lemma_lookup<V>(entries: Seq<(String, V)>, key: Seq<char>, i: int)
    requires
        0 <= i <= entries.len(),
        forall|k: int| 0 <= k < i ==> (#[trigger] entries[k]).0@ != key,
    ensures
        i < entries.len() && entries[i].0@ == key ==> lookup(entries, key) == Some(entries[i].1),
        i == entries.len() ==> lookup(entries, key) is None,
    decreases entries.len(),
{
    if entries.len() > 0 && i > 0 {
        let rest = entries.drop_first();
        assert(entries[0].0@ != key);
        assert forall|k: int| 0 <= k < i - 1 implies (#[trigger] rest[k]).0@ != key by {
            assert(rest[k] == entries[k + 1]);
        }
        lemma_lookup(rest, key, i - 1);
    }
}

/// A key that is found stands in some entry.
proof fn lemma_found<V>(entries: Seq<(String, V)>, key: Seq<char>) -> (i: int)
    requires
        lookup(entries, key) is Some,
    ensures
        0 <= i < entries.len(),
        entries[i].0@ == key,
    decreases entries.len(),
{
    if entries[0].0@ == key {
        0
    } else {
        let i = lemma_found(entries.drop_first(), key);
        i + 1
    }
}

/// A key that stands in some entry is found.
proof fn lemma_stands<V>(entries: Seq<(String, V)>, i: int)
    requires
        0 <= i < entries.len(),
    ensures
        lookup(entries, entries[i].0@) is Some,
    decreases entries.len(),
{
    if i > 0 && entries[0].0@ != entries[i].0@ {
        assert(entries.drop_first()[i - 1] == entries[i]);
        lemma_stands(entries.drop_first(), i - 1);
    }
}

impl<V> View for Table<V> {
    type V = Map<Seq<char>, V>;

    closed spec fn view(&self) -> Map<Seq<char>, V> {
        Map::new(
            |key: Seq<char>| lookup(self.entries@, key) is Some,
            |key: Seq<char>| lookup(self.entries@, key)->0,
        )
    }
}

/// The value that a map holds for a key.
pub open spec fn value_of<V>(map: Map<Seq<char>, V>, key: Seq<char>) -> Option<V> {
    if map.dom().contains(key) {
        Some(map[key])
    } else {
        None
    }
}

impl<V> Table<V> {
    /// No key stands in two entries.
    pub closed spec fn distinct(&self) -> bool {
        forall|i: int, j: int|
            0 <= i < j < self.entries.len() ==> (#[trigger] self.entries@[i]).0@ != (
            #[trigger] self.entries@[j]).0@
    }

    /// The empty map.
    pub fn new() -> (table: Table<V>)
        ensures
            table@ == Map::<Seq<char>, V>::empty(),
            table.distinct(),
    {
        let table = Table { entries: Vec::new() };
        assert(table@ =~= Map::<Seq<char>, V>::empty());
        table
    }

    /// Index of the first entry with the given key, or the number of entries.
    fn find(&self, key: &str) -> (i: usize)
        ensures
            i <= self.entries.len(),
            forall|k: int| 0 <= k < i ==> (#[trigger] self.entries@[k]).0@ != key@,
            i < self.entries.len() ==> self.entries@[i as int].0@ == key@,
    {
        let mut i: usize = 0;
        while i < self.entries.len()
            invariant
                i <= self.entries.len(),
                forall|k: int| 0 <= k < i ==> (#[trigger] self.entries@[k]).0@ != key@,
            decreases self.entries.len() - i,
        {
            if same(self.entries[i].0.as_str(), key) {
                return i;
            }
            i = i + 1;
        }
        i
    }

    /// The value stored for `key`.
    pub fn get(&self, key: &str) -> (value: Option<&V>)
        ensures
            match value {
                Some(v) => value_of(self@, key@) == Some(*v),
                None => value_of(self@, key@) is None,
            },
    {
        let i: usize = self.find(key);
        proof {
            lemma_lookup(self.entries@, key@, i as int);
        }
        if i < self.entries.len() {
            Some(&self.entries[i].1)
        } else {
            None
        }
    }

    /// Whether a value is stored for `key`.
    pub fn contains_key(&self, key: &str) -> (r: bool)
        ensures
            r == self@.dom().contains(key@),
    {
        let i: usize = self.find(key);
        proof {
            lemma_lookup(self.entries@, key@, i as int);
        }
        i < self.entries.len()
    }

    /// Stores `value` for `key`, in place of what was stored there.
    pub fn insert(&mut self, key: String, value: V)
        ensures
            final(self)@ == old(self)@.insert(key@, value),
            old(self).distinct() ==> final(self).distinct(),
    {
        let i: usize = self.find(key.as_str());
        let ghost before = self.entries@;
        let ghost k = key@;
        let ghost v = value;
        if i < self.entries.len() {
            self.entries.set(i, (key, value));
        } else {
            self.entries.push((key, value));
        }
        proof {
            let after = self.entries@;
            lemma_lookup(after, k, i as int);
            assert forall|other: Seq<char>| other != k implies #[trigger] lookup(after, other)
                == lookup(before, other) by {
                if i < before.len() {
                    assert(after =~= before.update(i as int, after[i as int]));
                    lemma_lookup_other(before, i as int, after[i as int], other);
                } else {
                    assert(after =~= before.push(after[i as int]));
                    lemma_lookup_push(before, after[i as int], other);
                }
            }
            assert(self@ =~= old(self)@.insert(k, v));
        }
    }

    /// The keys, each once, in the order in which they were first stored.
    pub fn keys(&self) -> (keys: Vec<String>)
        ensures
            forall|key: Seq<char>| #[trigger]
                self@.dom().contains(key) <==> exists|i: int|
                    0 <= i < keys.len() && (#[trigger] keys@[i])@ == key,
            self.distinct() ==> forall|i: int, j: int|
                0 <= i < j < keys.len() ==> (#[trigger] keys@[i])@ != (#[trigger] keys@[j])@,
    {
        let mut keys: Vec<String> = Vec::new();
        let mut i: usize = 0;
        while i < self.entries.len()
            invariant
                i <= self.entries.len(),
                keys.len() == i,
                forall|k: int| 0 <= k < i ==> (#[trigger] keys@[k])@ == self.entries@[k].0@,
            decreases self.entries.len() - i,
        {
            keys.push(self.entries[i].0.clone());
            i = i + 1;
        }
        proof {
            assert forall|key: Seq<char>| #[trigger]
                self@.dom().contains(key) <==> exists|i: int|
                    0 <= i < keys.len() && (#[trigger] keys@[i])@ == key by {
                if self@.dom().contains(key) {
                    let k = lemma_found(self.entries@, key);
                    assert(keys@[k]@ == key);
                }
                if exists|i: int| 0 <= i < keys.len() && (#[trigger] keys@[i])@ == key {
                    let k = choose|i: int| 0 <= i < keys.len() && (#[trigger] keys@[i])@ == key;
                    lemma_stands(self.entries@, k);
                }
            }
        }
        keys
    }
}

/// Replacing an entry by one with the same key does not concern other keys.
proof fn lemma_lookup_other<V>(entries: Seq<(String, V)>, i: int, entry: (String, V), other: Seq<char>)
    requires
        0 <= i < entries.len(),
        entries[i].0@ == entry.0@,
        entry.0@ != other,
    ensures
        lookup(entries.update(i, entry), other) == lookup(entries, other),
    decreases entries.len(),
{
    let after = entries.update(i, entry);
    if i == 0 {
        assert(after.drop_first() =~= entries.drop_first());
    } else if entries[0].0@ != other {
        assert(after.drop_first() =~= entries.drop_first().update(i - 1, entry));
        lemma_lookup_other(entries.drop_first(), i - 1, entry, other);
    }
}

/// A new entry at the end does not concern other keys.
proof fn lemma_lookup_push<V>(entries: Seq<(String, V)>, entry: (String, V), other: Seq<char>)
    requires
        entry.0@ != other,
    ensures
        lookup(entries.push(entry), other) == lookup(entries, other),
    decreases entries.len(),
{
    let after = entries.push(entry);
    if entries.len() == 0 {
        assert(after.drop_first() =~= entries);
    } else if entries[0].0@ != other {
        assert(after.drop_first() =~= entries.drop_first().push(entry));
        lemma_lookup_push(entries.drop_first(), entry, other);
    }
}

} // verus!
