//! A small insertion-ordered map kept in a vector of entries.
use std::borrow::Cow;
use vstd::prelude::*;

verus! {

/// A key of a [`VecMap`]: a value that stands for a string, which it can lend out.
pub trait MapKey {
    spec fn key_view(&self) -> Seq<char>;

    fn key_str(&self) -> (s: &str)
        ensures
            s@ == self.key_view(),
    ;
}

impl<'a> MapKey for Cow<'a, str> {
    open spec fn key_view(&self) -> Seq<char> {
        self@
    }

    fn key_str(&self) -> (s: &str) {
        match self {
            Cow::Borrowed(b) => b,
            Cow::Owned(o) => o.as_str(),
        }
    }
}

/// First index at or after `i` whose key is `key`, if any.
pub open spec fn find_from<K: MapKey, V>(entries: Seq<(K, V)>, key: Seq<char>, i: int) -> Option<int>
    decreases entries.len() - i,
{
    if i < 0 || i >= entries.len() {
        None
    } else if entries[i].0.key_view() == key {
        Some(i)
    } else {
        find_from(entries, key, i + 1)
    }
}

pub proof fn lemma_find_from<K: MapKey, V>(entries: Seq<(K, V)>, key: Seq<char>, i: int)
    requires
        0 <= i <= entries.len(),
    ensures
        match find_from(entries, key, i) {
            Some(j) => i <= j < entries.len() && entries[j].0.key_view() == key && forall|k: int|
                i <= k < j ==> #[trigger] entries[k].0.key_view() != key,
            None => forall|k: int| i <= k < entries.len() ==> #[trigger] entries[k].0.key_view() != key,
        },
    decreases entries.len() - i,
{
    if i < entries.len() && entries[i].0.key_view() != key {
        lemma_find_from(entries, key, i + 1);
    }
}


/// `find_from(entries, key, 0)` is the first index holding `key`: any candidate with that
/// property is it.
pub proof fn lemma_find_unique<K: MapKey, V>(entries: Seq<(K, V)>, key: Seq<char>, r: Option<int>)
    requires
        match r {
            Some(j) => 0 <= j < entries.len() && entries[j].0.key_view() == key && forall|k: int|
                0 <= k < j ==> #[trigger] entries[k].0.key_view() != key,
            None => forall|k: int| 0 <= k < entries.len() ==> #[trigger] entries[k].0.key_view() != key,
        },
    ensures
        find_from(entries, key, 0) == r,
{
    lemma_find_from(entries, key, 0);
    match find_from(entries, key, 0) {
        Some(j) => {
            match r {
                Some(j2) => {
                    if j < j2 {
                        assert(entries[j].0.key_view() != key);
                    } else if j2 < j {
                        assert(entries[j2].0.key_view() != key);
                    }
                },
                None => {
                    assert(entries[j].0.key_view() != key);
                },
            }
        },
        None => {
            if let Some(j2) = r {
                assert(entries[j2].0.key_view() != key);
            }
        },
    }
}

/// The value stored under `key` in `entries`: that of the first entry with the key.
pub open spec fn lookup_in<K: MapKey, V>(entries: Seq<(K, V)>, key: Seq<char>) -> Option<V> {
    match find_from(entries, key, 0) {
        Some(i) => Some(entries[i].1),
        None => None,
    }
}

/// No key occurs twice in `entries`.
pub open spec fn keys_distinct<K: MapKey, V>(entries: Seq<(K, V)>) -> bool {
    forall|i: int, j: int|
        0 <= i < j < entries.len() ==> #[trigger] entries[i].0.key_view() != #[trigger] entries[j].0.key_view()
}

/// Appending an entry whose key is absent adds exactly that key.
pub proof fn lemma_push_entry<K: MapKey, V>(entries: Seq<(K, V)>, e: (K, V))
    requires
        find_from(entries, e.0.key_view(), 0) is None,
    ensures
        lookup_in(entries.push(e), e.0.key_view()) == Some(e.1),
        forall|k: Seq<char>| k != e.0.key_view() ==> #[trigger] lookup_in(entries.push(e), k) == lookup_in(entries, k),
        keys_distinct(entries) ==> keys_distinct(entries.push(e)),
{
    let p = entries.push(e);
    lemma_find_from(entries, e.0.key_view(), 0);
    assert forall|k: int| 0 <= k < entries.len() implies #[trigger] p[k].0.key_view() != e.0.key_view() by {
        assert(p[k] == entries[k]);
    }
    lemma_find_unique(p, e.0.key_view(), Some(entries.len() as int));
    assert forall|k: Seq<char>| k != e.0.key_view() implies #[trigger] lookup_in(p, k) == lookup_in(entries, k) by {
        lemma_find_from(entries, k, 0);
        let r = find_from(entries, k, 0);
        assert forall|m: int| 0 <= m < entries.len() implies #[trigger] p[m] == entries[m] by {}
        lemma_find_unique(p, k, r);
    }
    if keys_distinct(entries) {
        assert forall|i: int, j: int| 0 <= i < j < p.len() implies #[trigger] p[i].0.key_view() != #[trigger] p[j].0.key_view() by {
            if j == entries.len() {
                assert(entries[i].0.key_view() != e.0.key_view());
            } else {
                assert(entries[i].0.key_view() != entries[j].0.key_view());
            }
        }
    }
}

/// Replacing the value of entry `i`, with a key of the same text, changes only what
/// that key maps to.
pub proof fn lemma_update_entry<K: MapKey, V>(entries: Seq<(K, V)>, i: int, e: (K, V))
    requires
        find_from(entries, e.0.key_view(), 0) == Some(i),
        entries[i].0.key_view() == e.0.key_view(),
    ensures
        lookup_in(entries.update(i, e), e.0.key_view()) == Some(e.1),
        forall|k: Seq<char>| k != e.0.key_view() ==> #[trigger] lookup_in(entries.update(i, e), k) == lookup_in(entries, k),
        keys_distinct(entries) ==> keys_distinct(entries.update(i, e)),
{
    let u = entries.update(i, e);
    lemma_find_from(entries, e.0.key_view(), 0);
    assert forall|m: int| 0 <= m < entries.len() implies #[trigger] u[m].0.key_view() == entries[m].0.key_view() by {}
    lemma_find_unique(u, e.0.key_view(), Some(i));
    assert forall|k: Seq<char>| k != e.0.key_view() implies #[trigger] lookup_in(u, k) == lookup_in(entries, k) by {
        lemma_find_from(entries, k, 0);
        let r = find_from(entries, k, 0);
        lemma_find_unique(u, k, r);
        if let Some(j) = r {
            assert(j != i);
        }
    }
    if keys_distinct(entries) {
        assert forall|a: int, b: int| 0 <= a < b < u.len() implies #[trigger] u[a].0.key_view() != #[trigger] u[b].0.key_view() by {
            assert(entries[a].0.key_view() != entries[b].0.key_view());
        }
    }
}

/// Removing entry `i` from entries without repeated keys removes exactly its key.
pub proof fn lemma_remove_entry<K: MapKey, V>(entries: Seq<(K, V)>, i: int)
    requires
        keys_distinct(entries),
        0 <= i < entries.len(),
    ensures
        keys_distinct(entries.remove(i)),
        lookup_in(entries.remove(i), entries[i].0.key_view()) is None,
        forall|k: Seq<char>| k != entries[i].0.key_view() ==> #[trigger] lookup_in(entries.remove(i), k) == lookup_in(entries, k),
{
    let d = entries.remove(i);
    let key = entries[i].0.key_view();
    assert forall|m: int| 0 <= m < d.len() implies #[trigger] d[m] == (if m < i { entries[m] } else { entries[m + 1] }) by {}
    assert forall|a: int, b: int| 0 <= a < b < d.len() implies #[trigger] d[a].0.key_view() != #[trigger] d[b].0.key_view() by {
        let a2 = if a < i { a } else { a + 1 };
        let b2 = if b < i { b } else { b + 1 };
        assert(d[a] == entries[a2]);
        assert(d[b] == entries[b2]);
        assert(entries[a2].0.key_view() != entries[b2].0.key_view());
    }
    assert forall|m: int| 0 <= m < d.len() implies #[trigger] d[m].0.key_view() != key by {
        let m2 = if m < i { m } else { m + 1 };
        assert(d[m] == entries[m2]);
        assert(entries[m2].0.key_view() != entries[i].0.key_view());
    }
    lemma_find_unique(d, key, None);
    assert forall|k: Seq<char>| k != key implies #[trigger] lookup_in(d, k) == lookup_in(entries, k) by {
        lemma_find_from(entries, k, 0);
        let r = find_from(entries, k, 0);
        match r {
            Some(j) => {
                let j2 = if j < i { j } else { j - 1 };
                assert(j != i);
                assert(d[j2] == entries[j]);
                assert forall|m: int| 0 <= m < j2 implies #[trigger] d[m].0.key_view() != k by {
                    let m2 = if m < i { m } else { m + 1 };
                    assert(d[m] == entries[m2]);
                    assert(entries[m2].0.key_view() != k);
                }
                lemma_find_unique(d, k, Some(j2));
            },
            None => {
                assert forall|m: int| 0 <= m < d.len() implies #[trigger] d[m].0.key_view() != k by {
                    let m2 = if m < i { m } else { m + 1 };
                    assert(d[m] == entries[m2]);
                    assert(entries[m2].0.key_view() != k);
                }
                lemma_find_unique(d, k, None);
            },
        }
    }
}

/// Removing a key that was just inserted, when it was not there before, gives back the
/// entries as they were.
pub proof fn law_remove_undoes_fresh_insert<K: MapKey, V>(entries: Seq<(K, V)>, e: (K, V))
    requires
        find_from(entries, e.0.key_view(), 0) is None,
    ensures
        find_from(entries.push(e), e.0.key_view(), 0) == Some(entries.len() as int),
        entries.push(e).remove(entries.len() as int) == entries,
{
    lemma_find_from(entries, e.0.key_view(), 0);
    let p = entries.push(e);
    assert forall|k: int| 0 <= k < entries.len() implies #[trigger] p[k].0.key_view() != e.0.key_view() by {
        assert(p[k] == entries[k]);
    }
    lemma_find_unique(p, e.0.key_view(), Some(entries.len() as int));
    assert(p.remove(entries.len() as int) =~= entries);
}

/// An insertion-ordered map held as a vector of `(key, value)` entries.
#[derive(Clone, Default, PartialEq, Eq, Debug)]
pub struct VecMap<K, V>(pub Vec<(K, V)>);

impl<K: MapKey, V> VecMap<K, V> {
    /// The key of entry `i`.
    pub open spec fn key_at(&self, i: int) -> Seq<char> {
        self.0@[i].0.key_view()
    }

    /// The keys, in order.
    pub open spec fn keys(&self) -> Seq<Seq<char>> {
        self.0@.map_values(|kv: (K, V)| kv.0.key_view())
    }

    /// No key occurs twice.
    pub open spec fn wf(&self) -> bool {
        keys_distinct(self.0@)
    }

    /// Index of the first entry with key `key`.
    pub open spec fn find(&self, key: Seq<char>) -> Option<int> {
        find_from(self.0@, key, 0)
    }

    pub open spec fn has_key(&self, key: Seq<char>) -> bool {
        exists|i: int| 0 <= i < self.0@.len() && self.key_at(i) == key
    }

    /// The value stored under `key`, if any.
    pub open spec fn lookup(&self, key: Seq<char>) -> Option<V> {
        lookup_in(self.0@, key)
    }

    pub proof fn lemma_find(&self, key: Seq<char>)
        ensures
            match self.find(key) {
                Some(j) => 0 <= j < self.0@.len() && self.key_at(j) == key && forall|k: int|
                    0 <= k < j ==> #[trigger] self.key_at(k) != key,
                None => forall|k: int| 0 <= k < self.0@.len() ==> #[trigger] self.key_at(k) != key,
            },
            self.find(key) is Some <==> self.has_key(key),
    {
        lemma_find_from(self.0@, key, 0);
        if let Some(j) = self.find(key) {
            assert(self.key_at(j) == key);
        }
        if self.has_key(key) {
            let i = choose|i: int| 0 <= i < self.0@.len() && self.key_at(i) == key;
            assert(self.key_at(i) == key);
        }
    }

    pub fn is_empty(&self) -> (b: bool)
        ensures
            b == (self.0@.len() == 0),
    {
        self.0.is_empty()
    }

    /// Iterates the entries in insertion order.
    pub fn iter(&self) -> (it: Iter<'_, K, V>)
        ensures
            it.entries@ == self.0@,
            it.pos == 0,
    {
        Iter { entries: self.0.as_slice(), pos: 0 }
    }

    fn position(&self, key: &str) -> (r: Option<usize>)
        ensures
            match r {
                Some(i) => self.find(key@) == Some(i as int),
                None => self.find(key@) is None,
            },
            r matches Some(i) ==> i < self.0@.len(),
    {
        proof {
            self.lemma_find(key@);
        }
        let n = self.0.len();
        let mut i: usize = 0;
        while i < n
            invariant
                n == self.0@.len(),
                i <= n,
                self.find(key@) == find_from(self.0@, key@, i as int),
            decreases n - i,
        {
            if crate::strs::str_eq(self.0[i].0.key_str(), key) {
                return Some(i);
            }
            i = i + 1;
        }
        None
    }

    pub fn contains_key(&self, key: &str) -> (b: bool)
        ensures
            b == self.has_key(key@),
    {
        proof {
            self.lemma_find(key@);
        }
        self.position(key).is_some()
    }

    /// Stores `value` under `key`. A key already present keeps its place and its
    /// stored key, and the old value is handed back; a new key goes at the end.
    pub fn insert(&mut self, key: K, mut value: V) -> (r: Option<V>)
        ensures
            match old(self).find(key.key_view()) {
                None => r is None && final(self).0@ == old(self).0@.push((key, value)),
                Some(i) => r == Some(old(self).0@[i].1) && final(self).0@ == old(self).0@.update(
                    i,
                    (old(self).0@[i].0, value),
                ),
            },
            final(self).lookup(key.key_view()) == Some(value),
            forall|k: Seq<char>| k != key.key_view() ==> #[trigger] final(self).lookup(k) == old(self).lookup(k),
            old(self).wf() ==> final(self).wf(),
    {
        proof {
            old(self).lemma_find(key.key_view());
        }
        match self.position(key.key_str()) {
            None => {
                proof {
                    lemma_push_entry(self.0@, (key, value));
                }
                self.0.push((key, value));
                None
            },
            Some(i) => {
                proof {
                    lemma_update_entry(self.0@, i as int, (self.0@[i as int].0, value));
                }
                std::mem::swap(&mut self.0[i].1, &mut value);
                Some(value)
            },
        }
    }

    pub fn get(&self, key: &str) -> (r: Option<&V>)
        ensures
            match self.lookup(key@) {
                Some(v) => r == Some(&v),
                None => r is None,
            },
    {
        match self.position(key) {
            Some(i) => Some(&self.0[i].1),
            None => None,
        }
    }

    /// The value stored under `key`, to change in place.
    pub fn get_mut(&mut self, key: &str) -> (r: Option<&mut V>)
        ensures
            match old(self).find(key@) {
                Some(i) => r matches Some(v) && *v == old(self).0@[i].1 && final(self).0@ == old(self).0@.update(
                    i,
                    (old(self).0@[i].0, *final(v)),
                ),
                None => r is None && final(self).0@ == old(self).0@,
            },
    {
        match self.position(key) {
            Some(i) => Some(&mut self.0[i].1),
            None => None,
        }
    }

    /// Removes the first entry with key `key` and hands back its value.
    pub fn remove(&mut self, key: &str) -> (r: Option<V>)
        ensures
            match old(self).find(key@) {
                None => r is None && final(self).0@ == old(self).0@,
                Some(i) => r == Some(old(self).0@[i].1) && final(self).0@ == old(self).0@.remove(i),
            },
            old(self).wf() ==> final(self).wf() && final(self).lookup(key@) is None,
            old(self).wf() ==> forall|k: Seq<char>| k != key@ ==> #[trigger] final(self).lookup(k) == old(self).lookup(k),
    {
        proof {
            old(self).lemma_find(key@);
        }
        match self.position(key) {
            Some(i) => {
                proof {
                    if old(self).wf() {
                        lemma_remove_entry(self.0@, i as int);
                    }
                }
                let (_k, v) = self.0.remove(i);
                Some(v)
            },
            None => None,
        }
    }
}

impl<'q, K: MapKey, V> std::ops::Index<&'q str> for VecMap<K, V> {
    type Output = V;

    /// The value stored under `index`, which must be there.
    fn index(&self, index: &'q str) -> (r: &V)
        ensures
            self.lookup(index@) == Some(*r),
    {
        proof {
            self.lemma_find(index@);
        }
        match self.get(index) {
            Some(v) => v,
            None => {
                proof {
                    assert(false);
                }
                &self.0[0].1
            },
        }
    }
}

impl<'q, K: MapKey, V> vstd::std_specs::core::IndexSpecImpl<&'q str> for VecMap<K, V> {
    open spec fn index_req(&self, index: &&'q str) -> bool {
        self.has_key((*index)@)
    }
}

/// The entries of a [`VecMap`], taken out in insertion order.
pub type IntoIter<K, V> = std::vec::IntoIter<(K, V)>;

impl<K, V> IntoIterator for VecMap<K, V> {
    type Item = (K, V);
    type IntoIter = IntoIter<K, V>;

    fn into_iter(self) -> (it: IntoIter<K, V>)
        ensures
            vstd::std_specs::iter::IteratorSpec::remaining(&it) == self.0@,
    {
        proof {
            broadcast use vstd::std_specs::vec::axiom_spec_into_iter;
        }
        self.0.into_iter()
    }
}

/// A cursor over the entries of a [`VecMap`], in insertion order.
pub struct Iter<'a, K, V> {
    pub entries: &'a [(K, V)],
    pub pos: usize,
}

impl<'a, K, V> Iter<'a, K, V> {
    /// The entries not handed out yet, in order.
    pub open spec fn rest(&self) -> Seq<(&'a K, &'a V)> {
        if self.pos < self.entries@.len() {
            Seq::new(
                (self.entries@.len() - self.pos) as nat,
                |i: int| (&self.entries@[self.pos + i].0, &self.entries@[self.pos + i].1),
            )
        } else {
            Seq::empty()
        }
    }
}

impl<'a, K, V> Iterator for Iter<'a, K, V> {
    type Item = (&'a K, &'a V);

    /// The next entry, if any.
    fn next(&mut self) -> (r: Option<(&'a K, &'a V)>)
        ensures
            final(self).entries@ == old(self).entries@,
            old(self).pos < old(self).entries@.len() ==> final(self).pos == old(self).pos + 1
                && r == Some((&old(self).entries@[old(self).pos as int].0, &old(self).entries@[old(self).pos as int].1)),
            old(self).pos >= old(self).entries@.len() ==> final(self).pos == old(self).pos && r is None,
    {
        if self.pos < self.entries.len() {
            let e = &self.entries[self.pos];
            self.pos = self.pos + 1;
            proof {
                assert(self.rest() =~= old(self).rest().drop_first());
            }
            Some((&e.0, &e.1))
        } else {
            None
        }
    }
}

impl<'a, K, V> vstd::std_specs::iter::IteratorSpecImpl for Iter<'a, K, V> {
    open spec fn obeys_prophetic_iter_laws(&self) -> bool {
        true
    }

    open spec fn remaining(&self) -> Seq<(&'a K, &'a V)> {
        self.rest()
    }

    open spec fn will_return_none(&self) -> bool {
        true
    }

    open spec fn decrease(&self) -> Option<nat> {
        Some(self.rest().len())
    }

    open spec fn initial_value_relation(&self, init: &Self) -> bool {
        self.rest() == init.rest()
    }

    open spec fn peek(&self, index: int) -> Option<(&'a K, &'a V)> {
        if 0 <= index < self.rest().len() {
            Some(self.rest()[index])
        } else {
            None
        }
    }
}

} // verus!
