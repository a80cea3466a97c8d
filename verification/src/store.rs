//! The keyspace: a finite map from byte-string keys to byte-string values.
//!
//! The store itself is a plain single-owner value. Callers that share it
//! between connections put it behind a lock and hold that lock for exactly
//! one operation at a time; every operation here runs to completion without
//! waiting on anything.

use vstd::prelude::*;

verus! {

/// One key with the value stored under it.
struct Entry {
    key: Vec<u8>,
    value: Vec<u8>,
}

/// The keyspace. Entries are kept in a vector in which no key occurs twice.
pub struct Store {
    entries: Vec<Entry>,
}

/// Whether some entry of `entries` is stored under `key`.
spec fn has_key(entries: Seq<Entry>, key: Seq<u8>) -> bool {
    exists|i: int| 0 <= i < entries.len() && (#[trigger] entries[i]).key@ == key
}

/// The position of an entry stored under `key`, where there is one.
spec fn position_of(entries: Seq<Entry>, key: Seq<u8>) -> int {
    choose|i: int| 0 <= i < entries.len() && (#[trigger] entries[i]).key@ == key
}

/// No key occurs in two entries.
spec fn distinct_keys(entries: Seq<Entry>) -> bool {
    forall|i: int, j: int|
        0 <= i < entries.len() && 0 <= j < entries.len() && i != j ==> (#[trigger] entries[i]).key@
            != (#[trigger] entries[j]).key@
}

/// The map that a sequence of entries with distinct keys stands for.
spec fn entries_map(entries: Seq<Entry>) -> Map<Seq<u8>, Seq<u8>> {
    Map::new(
        |key: Seq<u8>| has_key(entries, key),
        |key: Seq<u8>| entries[position_of(entries, key)].value@,
    )
}

/// Byte-wise comparison of two byte strings.
pub fn bytes_eq(a: &[u8], b: &[u8]) -> (same: bool)
    ensures
        same == (a@ == b@),
{
    if a.len() != b.len() {
        return false;
    }
    let mut i: usize = 0;
    while i < a.len()
        invariant
            a.len() == b.len(),
            i <= a.len(),
            forall|j: int| 0 <= j < i ==> a@[j] == b@[j],
        decreases a.len() - i,
    {
        if a[i] != b[i] {
            return false;
        }
        i += 1;
    }
    assert(a@ =~= b@);
    true
}

impl Store {
    /// Holds of every store that this module hands out: no key occurs twice.
    pub closed spec fn wf(&self) -> bool {
        distinct_keys(self.entries@)
    }

    /// The mapping that the store holds.
    pub closed spec fn view(&self) -> Map<Seq<u8>, Seq<u8>> {
        entries_map(self.entries@)
    }

    /// An empty store.
    pub fn new() -> (store: Store)
        ensures
            store.wf(),
            store@ == Map::<Seq<u8>, Seq<u8>>::empty(),
    {
        let store = Store { entries: Vec::new() };
        assert(store@ =~= Map::<Seq<u8>, Seq<u8>>::empty());
        store
    }

    /// The position of the entry under `key`, if the store has one.
    fn find(&self, key: &[u8]) -> (found: Option<usize>)
        ensures
            match found {
                Some(i) => i < self.entries@.len() && self.entries@[i as int].key@ == key@,
                None => !has_key(self.entries@, key@),
            },
    {
        let mut i: usize = 0;
        while i < self.entries.len()
            invariant
                i <= self.entries@.len(),
                forall|j: int| 0 <= j < i ==> (#[trigger] self.entries@[j]).key@ != key@,
            decreases self.entries@.len() - i,
        {
            if bytes_eq(self.entries[i].key.as_slice(), key) {
                return Some(i);
            }
            i += 1;
        }
        None
    }

    /// Stores `value` under `key`, replacing what was there.
    pub fn set(&mut self, key: Vec<u8>, value: Vec<u8>)
        requires
            old(self).wf(),
        ensures
            final(self).wf(),
            final(self)@ == old(self)@.insert(key@, value@),
    {
        let ghost before = self.entries@;
        let ghost k = key@;
        let ghost v = value@;
        match self.find(key.as_slice()) {
            Some(i) => {
                self.entries.set(i, Entry { key, value });
                proof {
                    let after = self.entries@;
                    assert(distinct_keys(after)) by {
                        assert forall|a: int, b: int|
                            0 <= a < after.len() && 0 <= b < after.len() && a != b implies (
                        #[trigger] after[a]).key@ != (#[trigger] after[b]).key@ by {
                            assert(after[a].key@ == before[a].key@);
                            assert(after[b].key@ == before[b].key@);
                        }
                    }
                    lemma_map_after_replace(before, after, i as int, k, v);
                }
            },
            None => {
                self.entries.push(Entry { key, value });
                proof {
                    let after = self.entries@;
                    assert(distinct_keys(after)) by {
                        assert forall|a: int, b: int|
                            0 <= a < after.len() && 0 <= b < after.len() && a != b implies (
                        #[trigger] after[a]).key@ != (#[trigger] after[b]).key@ by {
                            if a < before.len() {
                                assert(after[a] == before[a]);
                            }
                            if b < before.len() {
                                assert(after[b] == before[b]);
                            }
                        }
                    }
                    lemma_map_after_push(before, after, k, v);
                }
            },
        }
    }

    /// The value stored under `key`, or `None` where the key is absent.
    pub fn get(&self, key: &[u8]) -> (value: Option<&Vec<u8>>)
        requires
            self.wf(),
        ensures
            match value {
                Some(v) => self@.contains_key(key@) && v@ == self@[key@],
                None => !self@.contains_key(key@),
            },
    {
        match self.find(key) {
            Some(i) => {
                proof {
                    lemma_value_at(self.entries@, i as int);
                }
                Some(&self.entries[i].value)
            },
            None => None,
        }
    }

    /// Removes `key`; says whether there was an entry to remove.
    pub fn del(&mut self, key: &[u8]) -> (removed: bool)
        requires
            old(self).wf(),
        ensures
            final(self).wf(),
            removed == old(self)@.contains_key(key@),
            final(self)@ == old(self)@.remove(key@),
    {
        let ghost before = self.entries@;
        match self.find(key) {
            Some(i) => {
                self.entries.remove(i);
                proof {
                    let after = self.entries@;
                    assert(after == before.remove(i as int));
                    assert(distinct_keys(after)) by {
                        assert forall|a: int, b: int|
                            0 <= a < after.len() && 0 <= b < after.len() && a != b implies (
                        #[trigger] after[a]).key@ != (#[trigger] after[b]).key@ by {
                            let a0 = if a < i { a } else { a + 1 };
                            let b0 = if b < i { b } else { b + 1 };
                            assert(after[a] == before[a0]);
                            assert(after[b] == before[b0]);
                        }
                    }
                    lemma_map_after_remove(before, after, i as int);
                }
                true
            },
            None => {
                assert(self@ =~= old(self)@.remove(key@));
                false
            },
        }
    }
}

/// The keyspace after `values` were stored under `key`, one after the other.
pub open spec fn after_sets(
    store: Map<Seq<u8>, Seq<u8>>,
    key: Seq<u8>,
    values: Seq<Seq<u8>>,
) -> Map<Seq<u8>, Seq<u8>>
    decreases values.len(),
{
    if values.len() == 0 {
        store
    } else {
        after_sets(store, key, values.drop_last()).insert(key, values.last())
    }
}

/// After any non-empty run of `set` calls on one key, in whatever order they
/// came to be applied, the key holds one of the values that were set: the
/// whole of the one that was applied last, and nothing mixed from several.
/// No other key is touched.
pub proof fn law_set_keeps_one_value(
    store: Map<Seq<u8>, Seq<u8>>,
    key: Seq<u8>,
    values: Seq<Seq<u8>>,
)
    requires
        values.len() > 0,
    ensures
        after_sets(store, key, values) == store.insert(key, values.last()),
        after_sets(store, key, values).contains_key(key),
        exists|i: int| 0 <= i < values.len() && after_sets(store, key, values)[key] == values[i],
    decreases values.len(),
{
    if values.len() > 1 {
        law_set_keeps_one_value(store, key, values.drop_last());
    }
    let earlier = after_sets(store, key, values.drop_last());
    assert(earlier.insert(key, values.last()) =~= store.insert(key, values.last()));
    assert(after_sets(store, key, values)[key] == values[values.len() - 1]);
}

/// With distinct keys, the map gives under each entry's key that entry's value.
proof fn lemma_value_at(entries: Seq<Entry>, i: int)
    requires
        distinct_keys(entries),
        0 <= i < entries.len(),
    ensures
        entries_map(entries).contains_key(entries[i].key@),
        entries_map(entries)[entries[i].key@] == entries[i].value@,
{
    let key = entries[i].key@;
    assert(has_key(entries, key));
    let p = position_of(entries, key);
    assert(0 <= p < entries.len() && entries[p].key@ == key);
    assert(p == i);
}

proof fn lemma_map_after_replace(
    before: Seq<Entry>,
    after: Seq<Entry>,
    i: int,
    key: Seq<u8>,
    value: Seq<u8>,
)
    requires
        distinct_keys(before),
        distinct_keys(after),
        0 <= i < before.len(),
        before[i].key@ == key,
        after.len() == before.len(),
        after[i].key@ == key,
        after[i].value@ == value,
        forall|j: int| 0 <= j < before.len() && j != i ==> after[j] == before[j],
    ensures
        entries_map(after) == entries_map(before).insert(key, value),
{
    let m1 = entries_map(after);
    let m2 = entries_map(before).insert(key, value);
    assert forall|k: Seq<u8>| m1.contains_key(k) <==> m2.contains_key(k) by {
        if has_key(after, k) {
            let p = position_of(after, k);
            if p != i {
                assert(before[p].key@ == k);
            }
        }
        if has_key(before, k) {
            let p = position_of(before, k);
            assert(after[p].key@ == k);
        }
        assert(after[i].key@ == key);
    }
    assert forall|k: Seq<u8>| m1.contains_key(k) implies m1[k] == m2[k] by {
        let p = position_of(after, k);
        lemma_value_at(after, p);
        if p != i {
            assert(before[p].key@ == k);
            lemma_value_at(before, p);
        }
    }
    assert(m1 =~= m2);
}

proof fn lemma_map_after_push(before: Seq<Entry>, after: Seq<Entry>, key: Seq<u8>, value: Seq<u8>)
    requires
        distinct_keys(after),
        after.len() == before.len() + 1,
        after.last().key@ == key,
        after.last().value@ == value,
        forall|j: int| 0 <= j < before.len() ==> after[j] == before[j],
    ensures
        entries_map(after) == entries_map(before).insert(key, value),
{
    let m1 = entries_map(after);
    let m2 = entries_map(before).insert(key, value);
    let last = after.len() - 1;
    assert(distinct_keys(before)) by {
        assert forall|a: int, b: int|
            0 <= a < before.len() && 0 <= b < before.len() && a != b implies (
        #[trigger] before[a]).key@ != (#[trigger] before[b]).key@ by {
            assert(after[a] == before[a]);
            assert(after[b] == before[b]);
        }
    }
    assert forall|k: Seq<u8>| m1.contains_key(k) <==> m2.contains_key(k) by {
        if has_key(after, k) {
            let p = position_of(after, k);
            if p != last {
                assert(before[p].key@ == k);
            }
        }
        if has_key(before, k) {
            let p = position_of(before, k);
            assert(after[p].key@ == k);
        }
        assert(after[last].key@ == key);
    }
    assert forall|k: Seq<u8>| m1.contains_key(k) implies m1[k] == m2[k] by {
        let p = position_of(after, k);
        lemma_value_at(after, p);
        if p != last {
            assert(before[p].key@ == k);
            lemma_value_at(before, p);
        }
    }
    assert(m1 =~= m2);
}

proof fn lemma_map_after_remove(before: Seq<Entry>, after: Seq<Entry>, i: int)
    requires
        distinct_keys(before),
        distinct_keys(after),
        0 <= i < before.len(),
        after == before.remove(i),
    ensures
        entries_map(after) == entries_map(before).remove(before[i].key@),
        entries_map(before).contains_key(before[i].key@),
{
    let key = before[i].key@;
    let m1 = entries_map(after);
    let m2 = entries_map(before).remove(key);
    lemma_value_at(before, i);
    assert forall|k: Seq<u8>| m1.contains_key(k) <==> m2.contains_key(k) by {
        if has_key(after, k) {
            let p = position_of(after, k);
            let p0 = if p < i { p } else { p + 1 };
            assert(after[p] == before[p0]);
            assert(before[p0].key@ == k);
            assert(p0 != i);
        }
        if has_key(before, k) && k != key {
            let p = position_of(before, k);
            let q = if p < i { p } else { p - 1 };
            assert(after[q] == before[p]);
            assert(after[q].key@ == k);
        }
    }
    assert forall|k: Seq<u8>| m1.contains_key(k) implies m1[k] == m2[k] by {
        let p = position_of(after, k);
        let p0 = if p < i { p } else { p + 1 };
        assert(after[p] == before[p0]);
        lemma_value_at(after, p);
        lemma_value_at(before, p0);
    }
    assert(m1 =~= m2);
}

} // verus!
