//! JSON objects: finite maps from keys to values, walked in key order.
//!
//! An [`Object`] holds its entries in a vector, in ascending key order, so
//! that no key stands twice, a key is found by binary search, and two objects
//! with the same fields hold the same entries. In contracts an object is read
//! through its view, the map from its keys to what their values stand for;
//! [`keys_in_order`] gives the order in which the keys of such a map are
//! walked.

use vstd::prelude::*;
use crate::key::{key_before, key_order, lemma_key_before_total, lemma_key_before_transitive, KeyOrder};
use crate::value::{Json, Value};

verus! {

/// Each key comes before all that follow it.
pub open spec fn ascending(keys: Seq<Seq<char>>) -> bool {
    forall|i: int, j: int| 0 <= i < j < keys.len() ==> key_before(#[trigger] keys[i], #[trigger] keys[j])
}

/// `keys` lists the keys of `m`, each once, in key order.
pub open spec fn lists_keys(keys: Seq<Seq<char>>, m: Map<Seq<char>, Json>) -> bool {
    &&& ascending(keys)
    &&& forall|k: Seq<char>| keys.contains(k) <==> m.contains_key(k)
}

/// The keys of a finite map in key order: the order in which an object is
/// walked.
pub open spec fn keys_in_order(m: Map<Seq<char>, Json>) -> Seq<Seq<char>> {
    choose|keys: Seq<Seq<char>>| lists_keys(keys, m)
}

/// Two ascending sequences that hold the same keys are the same sequence.
pub proof fn lemma_ascending_unique(a: Seq<Seq<char>>, b: Seq<Seq<char>>)
    requires
        ascending(a),
        ascending(b),
        forall|k: Seq<char>| a.contains(k) <==> b.contains(k),
    ensures
        a == b,
    decreases a.len(),
{
    if a.len() == 0 {
        if b.len() > 0 {
            assert(b.contains(b[0]));
        }
    } else {
        let x = a.last();
        assert(a.contains(x));
        let y = b.last();
        assert(b.contains(y));
        let a0 = a.drop_last();
        let b0 = b.drop_last();
        assert forall|k: Seq<char>| a0.contains(k) <==> b0.contains(k) by {
            if a0.contains(k) {
                assert(a.contains(k));
                let m = choose|m: int| 0 <= m < b.len() && b[m] == k;
                assert(b0[m] == k);
            }
            if b0.contains(k) {
                assert(b.contains(k));
                let m = choose|m: int| 0 <= m < a.len() && a[m] == k;
                assert(a0[m] == k);
            }
        }
        lemma_ascending_unique(a0, b0);
        assert(a =~= a0.push(x));
    }
}

/// A sequence that lists the keys of a map is its keys in key order; the map
/// is finite, with as many keys as the sequence is long.
pub proof fn lemma_keys_in_order(keys: Seq<Seq<char>>, m: Map<Seq<char>, Json>)
    requires
        lists_keys(keys, m),
    ensures
        keys_in_order(m) == keys,
        keys.no_duplicates(),
        m.dom().finite(),
        m.dom().len() == keys.len(),
{
    let chosen = keys_in_order(m);
    lemma_ascending_unique(chosen, keys);
    assert(keys.to_set() =~= m.dom());
    keys.unique_seq_to_set();
}

/// A finite set of keys that is not empty has a last key.
proof fn lemma_last_key(keys: Set<Seq<char>>) -> (last: Seq<char>)
    requires
        keys.finite(),
        keys.len() > 0,
    ensures
        keys.contains(last),
        forall|k: Seq<char>| keys.contains(k) && k != last ==> key_before(k, last),
    decreases keys.len(),
{
    let x = keys.choose();
    let rest = keys.remove(x);
    if rest.len() == 0 {
        x
    } else {
        let y = lemma_last_key(rest);
        lemma_key_before_total(x, y);
        if key_before(x, y) {
            y
        } else {
            assert forall|k: Seq<char>| keys.contains(k) && k != x implies key_before(k, x) by {
                if k != y {
                    lemma_key_before_transitive(k, y, x);
                }
            }
            x
        }
    }
}

/// The keys of a finite map can be listed in key order.
proof fn lemma_listing_exists(m: Map<Seq<char>, Json>) -> (keys: Seq<Seq<char>>)
    requires
        m.dom().finite(),
    ensures
        lists_keys(keys, m),
    decreases m.dom().len(),
{
    if m.dom().len() == 0 {
        Seq::<Seq<char>>::empty()
    } else {
        let last = lemma_last_key(m.dom());
        let rest = lemma_listing_exists(m.remove(last));
        let keys = rest.push(last);
        assert forall|i: int, j: int| 0 <= i < j < keys.len() implies key_before(
            #[trigger] keys[i],
            #[trigger] keys[j],
        ) by {
            assert(rest.contains(keys[i]));
        }
        assert forall|k: Seq<char>| keys.contains(k) <==> m.contains_key(k) by {
            if keys.contains(k) {
                let i = choose|i: int| 0 <= i < keys.len() && keys[i] == k;
                if i < rest.len() {
                    assert(rest.contains(k));
                }
            }
            if m.contains_key(k) {
                if k == last {
                    assert(keys[rest.len() as int] == k);
                } else {
                    assert(rest.contains(k));
                    let i = choose|i: int| 0 <= i < rest.len() && rest[i] == k;
                    assert(keys[i] == k);
                }
            }
        }
        keys
    }
}

/// The keys of a finite map, in key order, are the keys of the map, each
/// once.
pub proof fn lemma_keys_listed(m: Map<Seq<char>, Json>)
    requires
        m.dom().finite(),
    ensures
        lists_keys(keys_in_order(m), m),
        keys_in_order(m).no_duplicates(),
        keys_in_order(m).len() == m.len(),
{
    let keys = lemma_listing_exists(m);
    lemma_keys_in_order(keys, m);
}

/// A JSON object: a finite map from keys to values, walked in key order.
#[derive(Debug, PartialEq, Eq)]
pub struct Object {
    /// The keys with their values, in ascending key order.
    entries: Vec<(String, Value)>,
}

/// The keys of the entries, place by place.
spec fn entry_keys(entries: Seq<(String, Value)>) -> Seq<Seq<char>> {
    Seq::new(entries.len(), |i: int| entries[i].0@)
}

/// A place at which the key `k` stands.
spec fn place_of(entries: Seq<(String, Value)>, k: Seq<char>) -> int {
    choose|i: int| 0 <= i < entries.len() && entries[i].0@ == k
}

/// The map from the keys of the entries to what their values stand for.
spec fn entry_map(entries: Seq<(String, Value)>) -> Map<Seq<char>, Json>
    decreases entries,
{
    Map::new(
        |k: Seq<char>| exists|i: int| 0 <= i < entries.len() && entries[i].0@ == k,
        |k: Seq<char>|
            {
                let i = place_of(entries, k);
                if 0 <= i < entries.len() {
                    entries[i].1.view()
                } else {
                    Json::Null
                }
            },
    )
}

/// Entries in ascending key order and their map: the keys of the map are the
/// keys of the entries, and each stands with its value.
proof fn lemma_entry_map(entries: Seq<(String, Value)>)
    requires
        ascending(entry_keys(entries)),
    ensures
        lists_keys(entry_keys(entries), entry_map(entries)),
        keys_in_order(entry_map(entries)) == entry_keys(entries),
        entry_map(entries).dom().finite(),
        entry_map(entries).len() == entries.len(),
        forall|i: int|
            0 <= i < entries.len() ==> entry_map(entries).contains_key(#[trigger] entries[i].0@),
        forall|i: int|
            0 <= i < entries.len() ==> entry_map(entries)[#[trigger] entries[i].0@] == entries[i].1@,
        forall|k: Seq<char>| #[trigger]
            entry_map(entries).contains_key(k) ==> 0 <= place_of(entries, k) < entries.len()
                && entries[place_of(entries, k)].0@ == k,
{
    let keys = entry_keys(entries);
    let m = entry_map(entries);
    assert forall|k: Seq<char>| keys.contains(k) <==> m.contains_key(k) by {
        if m.contains_key(k) {
            let i = place_of(entries, k);
            assert(keys[i] == k);
        }
    }
    lemma_keys_in_order(keys, m);
    assert forall|i: int| 0 <= i < entries.len() implies m.contains_key(#[trigger] entries[i].0@)
        && m[entries[i].0@] == entries[i].1@ by {
        let k = entries[i].0@;
        let j = place_of(entries, k);
        assert(keys[i] == keys[j]);
    }
}

/// Putting a new key at its place keeps the order and adds the key to the
/// map.
proof fn lemma_entry_insert(entries: Seq<(String, Value)>, at: int, entry: (String, Value))
    requires
        ascending(entry_keys(entries)),
        0 <= at <= entries.len(),
        forall|i: int| 0 <= i < at ==> key_before(#[trigger] entry_keys(entries)[i], entry.0@),
        forall|i: int|
            at <= i < entries.len() ==> key_before(entry.0@, #[trigger] entry_keys(entries)[i]),
    ensures
        ascending(entry_keys(entries.insert(at, entry))),
        !entry_map(entries).contains_key(entry.0@),
        entry_map(entries.insert(at, entry)) == entry_map(entries).insert(entry.0@, entry.1@),
{
    let keys = entry_keys(entries);
    let after = entries.insert(at, entry);
    let added = entry_keys(after);
    lemma_entry_map(entries);
    assert forall|i: int, j: int| 0 <= i < j < added.len() implies key_before(
        #[trigger] added[i],
        #[trigger] added[j],
    ) by {
        if j < at {
            assert(key_before(keys[i], keys[j]));
        } else if i > at {
            assert(key_before(keys[i - 1], keys[j - 1]));
        }
    }
    if entry_map(entries).contains_key(entry.0@) {
        let i = place_of(entries, entry.0@);
        assert(keys[i] == entry.0@);
    }
    let m = entry_map(entries).insert(entry.0@, entry.1@);
    assert forall|k: Seq<char>| entry_map(after).contains_key(k) <==> m.contains_key(k) by {
        if entry_map(entries).contains_key(k) {
            let i = place_of(entries, k);
            if i < at {
                assert(after[i].0@ == k);
            } else {
                assert(after[i + 1].0@ == k);
            }
        }
        if k == entry.0@ {
            assert(after[at].0@ == k);
        }
    }
}

/// Putting another value under a key that is there keeps the keys and
/// changes the map at that key.
proof fn lemma_entry_update(entries: Seq<(String, Value)>, at: int, entry: (String, Value))
    requires
        ascending(entry_keys(entries)),
        0 <= at < entries.len(),
        entries[at].0@ == entry.0@,
    ensures
        ascending(entry_keys(entries.update(at, entry))),
        entry_map(entries).contains_key(entry.0@),
        entry_map(entries)[entry.0@] == entries[at].1@,
        entry_map(entries.update(at, entry)) == entry_map(entries).insert(entry.0@, entry.1@),
{
    let after = entries.update(at, entry);
    assert(entry_keys(after) =~= entry_keys(entries));
    lemma_entry_map(entries);
    lemma_entry_map(after);
    let m = entry_map(entries).insert(entry.0@, entry.1@);
    assert forall|k: Seq<char>| entry_map(after).contains_key(k) <==> m.contains_key(k) by {
        if entry_map(entries).contains_key(k) {
            let i = place_of(entries, k);
            assert(after[i].0@ == k);
        }
    }
    assert forall|k: Seq<char>| #[trigger] entry_map(after).contains_key(k) implies entry_map(after)[k]
        == m[k] by {
        assert(entry_keys(entries)[at] == entry.0@);
    }
}

/// Taking an entry out keeps the order and takes its key out of the map.
proof fn lemma_entry_remove(entries: Seq<(String, Value)>, at: int)
    requires
        ascending(entry_keys(entries)),
        0 <= at < entries.len(),
    ensures
        ascending(entry_keys(entries.remove(at))),
        entry_map(entries).contains_key(entries[at].0@),
        entry_map(entries)[entries[at].0@] == entries[at].1@,
        entry_map(entries.remove(at)) == entry_map(entries).remove(entries[at].0@),
{
    let keys = entry_keys(entries);
    let after = entries.remove(at);
    let rest = entry_keys(after);
    let key = entries[at].0@;
    lemma_entry_map(entries);
    assert forall|i: int, j: int| 0 <= i < j < rest.len() implies key_before(
        #[trigger] rest[i],
        #[trigger] rest[j],
    ) by {
        let i0 = if i < at { i } else { i + 1 };
        let j0 = if j < at { j } else { j + 1 };
        assert(key_before(keys[i0], keys[j0]));
    }
    let m = entry_map(entries).remove(key);
    assert forall|k: Seq<char>| entry_map(after).contains_key(k) <==> m.contains_key(k) by {
        if entry_map(after).contains_key(k) {
            let i = place_of(after, k);
            let i0 = if i < at { i } else { i + 1 };
            assert(keys[i0] == k);
            assert(keys[at] == key);
        }
        if entry_map(entries).contains_key(k) && k != key {
            let i = place_of(entries, k);
            if i < at {
                assert(after[i].0@ == k);
            } else {
                assert(after[i - 1].0@ == k);
            }
        }
    }
}

/// A key that stands at no place is not in the map.
proof fn lemma_entry_absent(entries: Seq<(String, Value)>, at: int, key: Seq<char>)
    requires
        ascending(entry_keys(entries)),
        0 <= at <= entries.len(),
        forall|i: int| 0 <= i < at ==> key_before(#[trigger] entry_keys(entries)[i], key),
        forall|i: int| at <= i < entries.len() ==> key_before(key, #[trigger] entry_keys(entries)[i]),
    ensures
        !entry_map(entries).contains_key(key),
{
    if entry_map(entries).contains_key(key) {
        let i = place_of(entries, key);
        assert(entry_keys(entries)[i] == key);
    }
}

impl Object {
    /// The keys of the entries ascend. So no key stands twice.
    #[verifier::type_invariant]
    spec fn ordered(&self) -> bool {
        ascending(entry_keys(self.entries@))
    }

    /// The map that the object stands for.
    pub closed spec fn view(&self) -> Map<Seq<char>, Json>
        decreases self,
    {
        entry_map(self.entries@)
    }

    /// An object has finitely many keys.
    proof fn lemma_finite(&self)
        ensures
            self@.dom().finite(),
    {
        let keys = entry_keys(self.entries@);
        assert forall|k: Seq<char>| keys.to_set().contains(k) <==> self@.dom().contains(k) by {
            if self@.contains_key(k) {
                let i = choose|i: int| 0 <= i < self.entries@.len() && self.entries@[i].0@ == k;
                assert(keys[i] == k);
            }
        }
        assert(keys.to_set() =~= self@.dom());
    }

    /// What an object stands for is finite throughout.
    pub proof fn lemma_view_finite(&self)
        ensures
            Json::Object(self@).finite(),
        decreases self,
    {
        self.lemma_finite();
        assert forall|k: Seq<char>| self@.contains_key(k) implies (#[trigger] self@[k]).finite() by {
            let i = place_of(self.entries@, k);
            self.entries@[i].1.lemma_view_finite();
        }
    }

    /// An object without keys.
    pub fn new() -> (r: Object)
        ensures
            r@ == Map::<Seq<char>, Json>::empty(),
    {
        Object { entries: Vec::new() }
    }

    /// The number of keys.
    pub fn len(&self) -> (n: usize)
        ensures
            n == self@.len(),
            self@.dom().finite(),
    {
        proof {
            use_type_invariant(self);
            lemma_entry_map(self.entries@);
        }
        self.entries.len()
    }

    /// The key that stands at place `i` in key order, with its value.
    pub fn entry_at(&self, i: usize) -> (r: (&String, &Value))
        requires
            i < self@.len(),
        ensures
            r.0@ == keys_in_order(self@)[i as int],
            self@.contains_key(r.0@),
            r.1@ == self@[r.0@],
    {
        proof {
            use_type_invariant(self);
            lemma_entry_map(self.entries@);
        }
        let entry = &self.entries[i];
        (&entry.0, &entry.1)
    }

    /// Where `key` stands among the entries, or where it would have to go.
    fn locate(&self, key: &str) -> (r: (usize, bool))
        ensures
            r.0 <= self.entries@.len(),
            forall|i: int| 0 <= i < r.0 ==> key_before(#[trigger] entry_keys(self.entries@)[i], key@),
            r.1 ==> r.0 < self.entries@.len() && self.entries@[r.0 as int].0@ == key@,
            !r.1 ==> forall|i: int|
                r.0 <= i < self.entries@.len() ==> key_before(key@, #[trigger] entry_keys(self.entries@)[i]),
    {
        proof {
            use_type_invariant(self);
        }
        let ghost keys = entry_keys(self.entries@);
        let mut lo: usize = 0;
        let mut hi: usize = self.entries.len();
        while lo < hi
            invariant
                lo <= hi <= self.entries@.len(),
                keys == entry_keys(self.entries@),
                ascending(keys),
                forall|i: int| 0 <= i < lo ==> key_before(#[trigger] keys[i], key@),
                forall|i: int| hi <= i < self.entries@.len() ==> key_before(key@, #[trigger] keys[i]),
            decreases hi - lo,
        {
            let mid: usize = lo + (hi - lo) / 2;
            assert(keys[mid as int] == self.entries@[mid as int].0@);
            match key_order(self.entries[mid].0.as_str(), key) {
                KeyOrder::Before => {
                    assert forall|i: int| 0 <= i < mid + 1 implies key_before(#[trigger] keys[i], key@) by {
                        if i < mid {
                            lemma_key_before_transitive(keys[i], keys[mid as int], key@);
                        }
                    }
                    lo = mid + 1;
                },
                KeyOrder::Same => {
                    return (mid, true);
                },
                KeyOrder::After => {
                    assert forall|i: int| mid <= i < self.entries@.len() implies key_before(
                        key@,
                        #[trigger] keys[i],
                    ) by {
                        if mid < i {
                            lemma_key_before_transitive(key@, keys[mid as int], keys[i]);
                        }
                    }
                    hi = mid;
                },
            }
        }
        (lo, false)
    }

    /// The value under `key`, if the object has that key.
    pub fn get(&self, key: &str) -> (r: Option<&Value>)
        ensures
            r is Some <==> self@.contains_key(key@),
            r matches Some(v) ==> v@ == self@[key@],
    {
        proof {
            use_type_invariant(self);
            lemma_entry_map(self.entries@);
        }
        let (at, found) = self.locate(key);
        if found {
            Some(&self.entries[at].1)
        } else {
            proof {
                lemma_entry_absent(self.entries@, at as int, key@);
            }
            None
        }
    }

    /// Puts `value` under `key` and hands back the value that stood there.
    pub fn insert(&mut self, key: String, value: Value) -> (prev: Option<Value>)
        ensures
            final(self)@ == old(self)@.insert(key@, value@),
            prev is Some <==> old(self)@.contains_key(key@),
            prev matches Some(v) ==> v@ == old(self)@[key@],
    {
        proof {
            use_type_invariant(&*self);
        }
        let (at, found) = self.locate(key.as_str());
        let mut entries: Vec<(String, Value)> = Vec::new();
        core::mem::swap(&mut self.entries, &mut entries);
        let ghost before = entries@;
        if found {
            let mut held = (key, value);
            proof {
                lemma_entry_update(before, at as int, held);
            }
            core::mem::swap(&mut entries[at], &mut held);
            self.entries = entries;
            Some(held.1)
        } else {
            proof {
                lemma_entry_insert(before, at as int, (key, value));
            }
            entries.insert(at, (key, value));
            self.entries = entries;
            None
        }
    }

    /// Takes `key` out of the object and hands back the value that stood
    /// under it.
    pub fn remove(&mut self, key: &str) -> (prev: Option<Value>)
        ensures
            final(self)@ == old(self)@.remove(key@),
            prev is Some <==> old(self)@.contains_key(key@),
            prev matches Some(v) ==> v@ == old(self)@[key@],
    {
        proof {
            use_type_invariant(&*self);
        }
        let (at, found) = self.locate(key);
        if found {
            let mut entries: Vec<(String, Value)> = Vec::new();
            core::mem::swap(&mut self.entries, &mut entries);
            proof {
                lemma_entry_remove(entries@, at as int);
            }
            let entry = entries.remove(at);
            self.entries = entries;
            Some(entry.1)
        } else {
            proof {
                lemma_entry_absent(self.entries@, at as int, key@);
            }
            None
        }
    }
}

/// Entries with the same keys and the same values, place by place, make the
/// same map.
proof fn lemma_entry_map_same(a: Seq<(String, Value)>, b: Seq<(String, Value)>)
    requires
        ascending(entry_keys(a)),
        a.len() == b.len(),
        forall|i: int| 0 <= i < a.len() ==> a[i].0@ == b[i].0@ && a[i].1@ == b[i].1@,
    ensures
        ascending(entry_keys(b)),
        entry_map(a) == entry_map(b),
{
    assert(entry_keys(a) =~= entry_keys(b));
    lemma_entry_map(a);
}

impl Clone for Object {
    /// A copy that stands for the same map.
    fn clone(&self) -> (r: Object)
        ensures
            r@ == self@,
        decreases self,
    {
        proof {
            use_type_invariant(self);
        }
        let mut copy: Vec<(String, Value)> = Vec::new();
        let mut i: usize = 0;
        while i < self.entries.len()
            invariant
                i <= self.entries@.len(),
                copy@.len() == i,
                forall|j: int|
                    0 <= j < i ==> copy@[j].0@ == self.entries@[j].0@ && copy@[j].1@
                        == self.entries@[j].1@,
            decreases self.entries@.len() - i,
        {
            let entry = &self.entries[i];
            copy.push((entry.0.clone(), entry.1.clone()));
            i += 1;
        }
        proof {
            lemma_entry_map_same(self.entries@, copy@);
        }
        Object { entries: copy }
    }
}

} // verus!
