//! Maps and sets keyed by small plain values, held as vectors of entries in
//! the order of first insertion. Each key occurs once.

use vstd::prelude::*;

verus! {

/// A key that can be tested for equality.
pub trait Key: Sized {
    /// Whether two keys are the same value.
    fn same(&self, other: &Self) -> (b: bool)
        ensures
            b == (*self == *other),
    ;
}

impl Key for usize {
    fn same(&self, other: &Self) -> (b: bool) {
        *self == *other
    }
}

impl Key for (usize, usize) {
    fn same(&self, other: &Self) -> (b: bool) {
        self.0 == other.0 && self.1 == other.1
    }
}

/// No key occurs twice among the entries.
pub open spec fn distinct_keys<K, V>(entries: Seq<(K, V)>) -> bool {
    forall|i: int, j: int|
        0 <= i < j < entries.len() ==> (#[trigger] entries[i]).0 != (#[trigger] entries[j]).0
}

/// Some entry has the key `k`.
pub open spec fn has_key<K, V>(entries: Seq<(K, V)>, k: K) -> bool {
    exists|i: int| 0 <= i < entries.len() && (#[trigger] entries[i]).0 == k
}

/// The position of the entry with key `k`.
pub open spec fn key_index<K, V>(entries: Seq<(K, V)>, k: K) -> int {
    choose|i: int| 0 <= i < entries.len() && (#[trigger] entries[i]).0 == k
}

/// The entries as a map.
pub open spec fn entry_map<K, V>(entries: Seq<(K, V)>) -> Map<K, V> {
    Map::new(|k: K| has_key(entries, k), |k: K| entries[key_index(entries, k)].1)
}

/// With distinct keys, an entry's value is what the map holds at its key.
pub proof fn entry_map_at<K, V>(entries: Seq<(K, V)>, i: int)
    requires
        distinct_keys(entries),
        0 <= i < entries.len(),
    ensures
        entry_map(entries).contains_key(entries[i].0),
        entry_map(entries)[entries[i].0] == entries[i].1,
        key_index(entries, entries[i].0) == i,
{
    assert(has_key(entries, entries[i].0));
    let j = key_index(entries, entries[i].0);
    assert(entries[j].0 == entries[i].0);
    if j < i {
        assert(entries[j].0 != entries[i].0);
    }
    if i < j {
        assert(entries[i].0 != entries[j].0);
    }
}

/// A map held as entries in the order in which their keys first came.
pub struct KeyedMap<K, V> {
    pub entries: Vec<(K, V)>,
}

impl<K, V> View for KeyedMap<K, V> {
    type V = Map<K, V>;

    open spec fn view(&self) -> Map<K, V> {
        entry_map(self.entries@)
    }
}

impl<K: Key, V> KeyedMap<K, V> {
    /// No key occurs twice.
    pub open spec fn wf(&self) -> bool {
        distinct_keys(self.entries@)
    }

    /// The empty map.
    pub fn new() -> (m: Self)
        ensures
            m.wf(),
            m@ == Map::<K, V>::empty(),
            m.entries@ == Seq::<(K, V)>::empty(),
    {
        let m = KeyedMap { entries: Vec::new() };
        proof {
            assert(m@ =~= Map::<K, V>::empty());
        }
        m
    }

    /// The position of the entry with key `k`.
    pub fn position(&self, k: &K) -> (r: Option<usize>)
        ensures
            match r {
                Some(i) => i < self.entries@.len() && self.entries@[i as int].0 == *k,
                None => !has_key(self.entries@, *k),
            },
            self.wf() ==> (r is Some <==> self@.contains_key(*k)),
            self.wf() && r is Some ==> self@[*k] == self.entries@[r->0 as int].1,
    {
        let mut i: usize = 0;
        while i < self.entries.len()
            invariant
                i <= self.entries@.len(),
                forall|j: int| 0 <= j < i ==> (#[trigger] self.entries@[j]).0 != *k,
            decreases self.entries@.len() - i,
        {
            if self.entries[i].0.same(k) {
                proof {
                    if self.wf() {
                        entry_map_at(self.entries@, i as int);
                    }
                }
                return Some(i);
            }
            i = i + 1;
        }
        None
    }

    /// Whether the map has the key `k`.
    pub fn contains_key(&self, k: &K) -> (b: bool)
        requires
            self.wf(),
        ensures
            b == self@.contains_key(*k),
    {
        self.position(k).is_some()
    }

    /// The value at `k`.
    pub fn get(&self, k: &K) -> (r: Option<&V>)
        requires
            self.wf(),
        ensures
            match r {
                Some(v) => self@.contains_key(*k) && *v == self@[*k],
                None => !self@.contains_key(*k),
            },
    {
        match self.position(k) {
            Some(i) => Some(&self.entries[i].1),
            None => None,
        }
    }

    /// Sets the value at `k`; a key that is already there keeps its position.
    pub fn insert(&mut self, k: K, v: V)
        requires
            old(self).wf(),
        ensures
            final(self).wf(),
            final(self)@ == old(self)@.insert(k, v),
    {
        let ghost before = self.entries@;
        match self.position(&k) {
            Some(i) => {
                self.entries.set(i, (k, v));
                proof {
                    entry_map_update(before, i as int, v);
                }
            },
            None => {
                self.entries.push((k, v));
                proof {
                    entry_map_push(before, k, v);
                }
            },
        }
    }
}

/// Replacing the value of one entry replaces the map's value at its key.
pub proof fn entry_map_update<K, V>(entries: Seq<(K, V)>, i: int, v: V)
    requires
        distinct_keys(entries),
        0 <= i < entries.len(),
    ensures
        distinct_keys(entries.update(i, (entries[i].0, v))),
        entry_map(entries.update(i, (entries[i].0, v))) == entry_map(entries).insert(
            entries[i].0,
            v,
        ),
{
    let k = entries[i].0;
    let after = entries.update(i, (k, v));
    assert forall|a: int, b: int| 0 <= a < b < after.len() implies (#[trigger] after[a]).0 != (
    #[trigger] after[b]).0 by {
        assert(entries[a].0 != entries[b].0);
    }
    assert forall|x: K| has_key(after, x) <==> has_key(entries, x) || x == k by {
        if has_key(after, x) {
            let j = key_index(after, x);
            assert(entries[j].0 == after[j].0);
        }
        if has_key(entries, x) {
            let j = key_index(entries, x);
            assert(entries[j].0 == after[j].0);
        }
        assert(after[i].0 == k);
    }
    assert forall|x: K| has_key(after, x) implies entry_map(after)[x] == entry_map(entries).insert(
        k,
        v,
    )[x] by {
        let j = key_index(after, x);
        entry_map_at(after, j);
        entry_map_at(entries, j);
        entry_map_at(after, i);
    }
    assert(entry_map(after) =~= entry_map(entries).insert(k, v));
}

/// Appending an entry with a new key adds it to the map.
pub proof fn entry_map_push<K, V>(entries: Seq<(K, V)>, k: K, v: V)
    requires
        distinct_keys(entries),
        !has_key(entries, k),
    ensures
        distinct_keys(entries.push((k, v))),
        entry_map(entries.push((k, v))) == entry_map(entries).insert(k, v),
{
    let after = entries.push((k, v));
    assert forall|a: int, b: int| 0 <= a < b < after.len() implies (#[trigger] after[a]).0 != (
    #[trigger] after[b]).0 by {
        assert(after[a] == entries[a]);
        if b < entries.len() {
            assert(after[b] == entries[b]);
        }
    }
    assert forall|x: K| has_key(after, x) <==> has_key(entries, x) || x == k by {
        if has_key(after, x) {
            let j = key_index(after, x);
            if j < entries.len() {
                assert(entries[j].0 == after[j].0);
            }
        }
        if has_key(entries, x) {
            let j = key_index(entries, x);
            assert(entries[j].0 == after[j].0);
        }
        assert(after[entries.len() as int].0 == k);
    }
    assert forall|x: K| has_key(after, x) implies entry_map(after)[x] == entry_map(entries).insert(
        k,
        v,
    )[x] by {
        let j = key_index(after, x);
        entry_map_at(after, j);
        if j < entries.len() {
            assert(entries[j] == after[j]);
            entry_map_at(entries, j);
        }
    }
    assert(entry_map(after) =~= entry_map(entries).insert(k, v));
}

/// The map of the entries has as many keys as there are entries.
pub proof fn entry_map_size<K, V>(entries: Seq<(K, V)>)
    requires
        distinct_keys(entries),
    ensures
        entry_map(entries).dom().finite(),
        entry_map(entries).dom().len() == entries.len(),
    decreases entries.len(),
{
    if entries.len() == 0 {
        assert(entry_map(entries).dom() =~= Set::<K>::empty());
    } else {
        let front = entries.drop_last();
        let (k, v) = entries.last();
        assert(distinct_keys(front));
        entry_map_size(front);
        assert(!has_key(front, k)) by {
            if has_key(front, k) {
                let j = key_index(front, k);
                assert(entries[j].0 == k);
            }
        }
        entry_map_push(front, k, v);
        assert(front.push((k, v)) =~= entries);
        assert(entry_map(entries).dom() =~= entry_map(front).dom().insert(k));
    }
}

/// The lists of a map of vectors.
pub open spec fn lists<K, T>(m: Map<K, Vec<T>>) -> Map<K, Seq<T>> {
    m.map_values(|v: Vec<T>| v@)
}

/// The list at `k`, empty where there is none.
pub open spec fn list_at<K, T>(m: Map<K, Seq<T>>, k: K) -> Seq<T> {
    if m.contains_key(k) {
        m[k]
    } else {
        Seq::empty()
    }
}

/// The lists with `x` appended to the one at `k`.
pub open spec fn with_appended<K, T>(m: Map<K, Seq<T>>, k: K, x: T) -> Map<K, Seq<T>> {
    m.insert(k, list_at(m, k).push(x))
}

impl<K: Key, T> KeyedMap<K, Vec<T>> {
    /// Appends `x` to the list at `k`, starting the list where there is none.
    pub fn push_value(&mut self, k: K, x: T)
        requires
            old(self).wf(),
        ensures
            final(self).wf(),
            lists(final(self)@) == with_appended(lists(old(self)@), k, x),
    {
        let ghost before = self.entries@;
        match self.position(&k) {
            Some(i) => {
                self.entries[i].1.push(x);
                proof {
                    let v = self.entries@[i as int].1;
                    assert(self.entries@ =~= before.update(i as int, (before[i as int].0, v)));
                    entry_map_at(before, i as int);
                    entry_map_update(before, i as int, v);
                    assert(lists(self@) =~= with_appended(lists(entry_map(before)), k, x));
                }
            },
            None => {
                let mut v: Vec<T> = Vec::new();
                v.push(x);
                self.entries.push((k, v));
                proof {
                    entry_map_push(before, k, v);
                    assert(v@ =~= Seq::<T>::empty().push(x));
                    assert(lists(self@) =~= with_appended(lists(entry_map(before)), k, x));
                }
            },
        }
    }
}

} // verus!
