use vstd::prelude::*;

use crate::text::str_eq;

verus! {

/// A table keyed by text, as the JSON and TOML objects of the data files give
/// them: each key with its value, no key twice (the type's invariant).
#[derive(Debug)]
pub struct StrTable<V> {
    entries: Vec<(String, V)>,
}

/// No two entries have the same key.
pub open spec fn keys_distinct<V>(entries: Seq<(String, V)>) -> bool {
    forall|i: int, j: int|
        0 <= i < entries.len() && 0 <= j < entries.len() && i != j ==> (#[trigger] entries[i]).0@
            != (#[trigger] entries[j]).0@
}

/// The value of the first entry of `entries` with key `key`.
pub open spec fn lookup_entries<V>(entries: Seq<(String, V)>, key: Seq<char>) -> Option<V>
    decreases entries.len(),
{
    if entries.len() == 0 {
        None
    } else if entries[0].0@ == key {
        Some(entries[0].1)
    } else {
        lookup_entries(entries.drop_first(), key)
    }
}

impl<V> StrTable<V> {
    /// Every key occurs once.
    #[verifier::type_invariant]
    spec fn keys_once(self) -> bool {
        keys_distinct(self.entries@)
    }

    /// The entries, in order of first insertion.
    pub closed spec fn entry_list(&self) -> Seq<(String, V)> {
        self.entries@
    }

    /// The value stored under `key`, if any.
    pub open spec fn lookup(&self, key: Seq<char>) -> Option<V> {
        lookup_entries(self.entry_list(), key)
    }

    /// An empty table.
    pub fn new() -> (r: StrTable<V>)
        ensures
            r.entry_list().len() == 0,
            forall|key: Seq<char>| #[trigger] r.lookup(key) is None,
    {
        StrTable { entries: Vec::new() }
    }

    /// Whether the table has no entries.
    pub fn is_empty(&self) -> (r: bool)
        ensures
            r == (self.entry_list().len() == 0),
    {
        self.entries.len() == 0
    }

    /// The entries, each key once, in order of first insertion.
    pub fn entries(&self) -> (r: &Vec<(String, V)>)
        ensures
            r@ == self.entry_list(),
            keys_distinct(r@),
    {
        proof {
            use_type_invariant(self);
        }
        &self.entries
    }

    /// The value stored under `key`.
    pub fn get(&self, key: &str) -> (r: Option<&V>)
        ensures
            match r {
                Some(v) => self.lookup(key@) == Some(*v),
                None => self.lookup(key@) is None,
            },
    {
        let mut i: usize = 0;
        assert(self.entries@.skip(0) =~= self.entries@);
        while i < self.entries.len()
            invariant
                i <= self.entries@.len(),
                self.lookup(key@) == lookup_entries(self.entries@.skip(i as int), key@),
            decreases self.entries@.len() - i,
        {
            proof {
                assert(self.entries@.skip(i as int).drop_first() =~= self.entries@.skip(i + 1));
            }
            if str_eq(self.entries[i].0.as_str(), key) {
                return Some(&self.entries[i].1);
            }
            i += 1;
        }
        None
    }

    /// Position of the first entry with key `key`, or the number of entries.
    fn position_of(&self, key: &str) -> (i: usize)
        ensures
            i <= self.entries@.len(),
            forall|j: int| 0 <= j < i ==> (#[trigger] self.entries@[j]).0@ != key@,
            i < self.entries@.len() ==> self.entries@[i as int].0@ == key@,
    {
        let mut i: usize = 0;
        while i < self.entries.len()
            invariant
                i <= self.entries@.len(),
                forall|j: int| 0 <= j < i ==> (#[trigger] self.entries@[j]).0@ != key@,
            decreases self.entries@.len() - i,
        {
            if str_eq(self.entries[i].0.as_str(), key) {
                return i;
            }
            i += 1;
        }
        i
    }

    /// Adds `value` under `key`, replacing any value stored there.
    pub fn insert(&mut self, key: String, value: V)
        ensures
            final(self).lookup(key@) == Some(value),
            forall|k: Seq<char>| k != key@ ==> #[trigger] final(self).lookup(k) == old(self).lookup(
                k,
            ),
    {
        proof {
            use_type_invariant(&*self);
        }
        let ghost key_view = key@;
        let i = self.position_of(key.as_str());
        let ghost before = self.entries@;
        proof {
            lemma_lookup_prefix_miss(before, key@, i as int);
        }
        let mut entries: Vec<(String, V)> = Vec::new();
        std::mem::swap(&mut entries, &mut self.entries);
        assert(entries@ == before);
        if i < entries.len() {
            assert(entries@[i as int].0@ == key_view);
            entries.remove(i);
            entries.insert(i, (key, value));
            proof {
                assert(entries@ =~= before.update(i as int, entries@[i as int]));
                assert forall|k: Seq<char>| k != key_view implies #[trigger] lookup_entries(
                    entries@,
                    k,
                ) == lookup_entries(before, k) by {
                    lemma_lookup_replace(before, i as int, (entries@[i as int].0, value), k);
                }
                assert forall|a: int| 0 <= a < i implies (#[trigger] entries@[a]).0@ != key_view by {
                    assert(entries@[a] == before[a]);
                }
                lemma_lookup_prefix_miss(entries@, key_view, i as int);
                assert(entries@.skip(i as int)[0].0@ == key_view);
                assert forall|a: int, b: int|
                    0 <= a < entries@.len() && 0 <= b < entries@.len() && a != b implies (
                    #[trigger] entries@[a]).0@ != (#[trigger] entries@[b]).0@ by {
                    assert(before[a].0@ != before[b].0@);
                }
            }
        } else {
            entries.push((key, value));
            proof {
                assert forall|k: Seq<char>| k != key_view implies #[trigger] lookup_entries(
                    entries@,
                    k,
                ) == lookup_entries(before, k) by {
                    lemma_lookup_push(before, entries@[before.len() as int], k);
                }
                lemma_lookup_push(before, entries@[before.len() as int], key_view);
                assert forall|a: int, b: int|
                    0 <= a < entries@.len() && 0 <= b < entries@.len() && a != b implies (
                    #[trigger] entries@[a]).0@ != (#[trigger] entries@[b]).0@ by {
                    if a < before.len() && b < before.len() {
                        assert(before[a].0@ != before[b].0@);
                    } else if a < before.len() {
                        assert(entries@[a] == before[a]);
                    } else {
                        assert(entries@[b] == before[b]);
                    }
                }
            }
        }
        self.entries = entries;
    }
}

/// A value found under `key` is the value of an entry with that key.
pub proof fn lemma_lookup_is_entry<V>(entries: Seq<(String, V)>, key: Seq<char>)
    ensures
        lookup_entries(entries, key) matches Some(v) ==> exists|i: int|
            0 <= i < entries.len() && (#[trigger] entries[i]).1 == v && entries[i].0@ == key,
    decreases entries.len(),
{
    if entries.len() > 0 && entries[0].0@ != key {
        lemma_lookup_is_entry(entries.drop_first(), key);
        if lookup_entries(entries, key) is Some {
            let v = lookup_entries(entries, key)->0;
            let i = choose|i: int|
                0 <= i < entries.drop_first().len() && (#[trigger] entries.drop_first()[i]).1 == v
                    && entries.drop_first()[i].0@ == key;
            assert(entries[i + 1] == entries.drop_first()[i]);
        }
    } else if entries.len() > 0 {
        assert(entries[0].1 == entries[0].1);
    }
}

proof fn lemma_lookup_prefix_miss<V>(entries: Seq<(String, V)>, key: Seq<char>, i: int)
    requires
        0 <= i <= entries.len(),
        forall|j: int| 0 <= j < i ==> (#[trigger] entries[j]).0@ != key,
    ensures
        lookup_entries(entries, key) == lookup_entries(entries.skip(i), key),
    decreases i,
{
    if i > 0 {
        assert(entries.drop_first().skip(i - 1) =~= entries.skip(i));
        assert forall|j: int| 0 <= j < i - 1 implies (#[trigger] entries.drop_first()[j]).0@ != key by {
            assert(entries.drop_first()[j] == entries[j + 1]);
        }
        lemma_lookup_prefix_miss(entries.drop_first(), key, i - 1);
    } else {
        assert(entries.skip(0) =~= entries);
    }
}

proof fn lemma_lookup_replace<V>(entries: Seq<(String, V)>, i: int, e: (String, V), k: Seq<char>)
    requires
        0 <= i < entries.len(),
        e.0@ == entries[i].0@,
        k != e.0@,
    ensures
        lookup_entries(entries.update(i, e), k) == lookup_entries(entries, k),
    decreases entries.len(),
{
    if i > 0 {
        assert(entries.update(i, e).drop_first() =~= entries.drop_first().update(i - 1, e));
        lemma_lookup_replace(entries.drop_first(), i - 1, e, k);
    } else {
        assert(entries.update(i, e).drop_first() =~= entries.drop_first());
    }
}

proof fn lemma_lookup_push<V>(entries: Seq<(String, V)>, e: (String, V), k: Seq<char>)
    ensures
        lookup_entries(entries.push(e), k) == match lookup_entries(entries, k) {
            Some(v) => Some(v),
            None => if e.0@ == k {
                Some(e.1)
            } else {
                None
            },
        },
    decreases entries.len(),
{
    if entries.len() > 0 {
        assert(entries.push(e).drop_first() =~= entries.drop_first().push(e));
        lemma_lookup_push(entries.drop_first(), e, k);
    } else {
        assert(entries.push(e).drop_first() =~= Seq::<(String, V)>::empty());
        assert(lookup_entries(Seq::<(String, V)>::empty(), k) is None);
    }
}

} // verus!
