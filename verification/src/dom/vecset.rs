//! A small insertion-ordered set kept in a [`VecMap`] with unit values.
use crate::dom::vecmap::{MapKey, VecMap};
use vstd::prelude::*;

verus! {

/// An insertion-ordered set of keys.
#[derive(Clone, Default, PartialEq, Eq, Debug)]
pub struct VecSet<K>(pub VecMap<K, ()>);

impl<K: MapKey> VecSet<K> {
    /// The elements, in insertion order.
    pub open spec fn elems(&self) -> Seq<Seq<char>> {
        self.0.keys()
    }

    /// No element occurs twice.
    pub open spec fn wf(&self) -> bool {
        self.0.wf()
    }

    pub open spec fn has(&self, key: Seq<char>) -> bool {
        self.0.has_key(key)
    }

    pub fn is_empty(&self) -> (b: bool)
        ensures
            b == (self.0.0@.len() == 0),
    {
        self.0.is_empty()
    }

    /// Iterates the elements in insertion order.
    pub fn iter(&self) -> (it: Iter<'_, K>)
        ensures
            it.entries@ == self.0.0@,
            it.pos == 0,
    {
        Iter { entries: self.0.0.as_slice(), pos: 0 }
    }

    pub fn contains_key(&self, key: &str) -> (b: bool)
        ensures
            b == self.has(key@),
    {
        self.0.contains_key(key)
    }

    /// Adds `key`; true if it was not there before. A key already present stays where it is.
    pub fn insert(&mut self, key: K) -> (added: bool)
        ensures
            added == !old(self).has(key.key_view()),
            added ==> final(self).0.0@ == old(self).0.0@.push((key, ())),
            !added ==> final(self).0.0@ == old(self).0.0@,
            !added ==> final(self).elems() == old(self).elems(),
            final(self).has(key.key_view()),
            forall|k: Seq<char>| k != key.key_view() ==> (#[trigger] final(self).has(k) == old(self).has(k)),
            old(self).wf() ==> final(self).wf(),
    {
        proof {
            old(self).0.lemma_find(key.key_view());
        }
        let ghost kv = key.key_view();
        let r = self.0.insert(key, ());
        proof {
            self.0.lemma_find(kv);
            assert forall|k: Seq<char>| k != kv implies (#[trigger] self.has(k) == old(self).has(k)) by {
                self.0.lemma_find(k);
                old(self).0.lemma_find(k);
                assert(self.0.lookup(k) == old(self).0.lookup(k));
            }
            if r is Some {
                let i = old(self).0.find(kv)->0;
                assert(old(self).0.0@[i] == (old(self).0.0@[i].0, ()));
                assert(self.0.0@ =~= old(self).0.0@);
                assert(self.elems() =~= old(self).elems());
            }
        }
        r.is_none()
    }

    /// Removes `key`; true if it was there.
    pub fn remove(&mut self, key: &str) -> (removed: bool)
        ensures
            removed == old(self).has(key@),
            match old(self).0.find(key@) {
                Some(i) => final(self).0.0@ == old(self).0.0@.remove(i),
                None => final(self).0.0@ == old(self).0.0@,
            },
            old(self).wf() ==> final(self).wf() && !final(self).has(key@),
            old(self).wf() ==> forall|k: Seq<char>| k != key@ ==> (#[trigger] final(self).has(k) == old(self).has(k)),
    {
        proof {
            old(self).0.lemma_find(key@);
        }
        let r = self.0.remove(key);
        proof {
            if old(self).wf() {
                self.0.lemma_find(key@);
                assert forall|k: Seq<char>| k != key@ implies (#[trigger] self.has(k) == old(self).has(k)) by {
                    self.0.lemma_find(k);
                    old(self).0.lemma_find(k);
                    assert(self.0.lookup(k) == old(self).0.lookup(k));
                }
            }
        }
        r.is_some()
    }
}

/// The elements of a [`VecSet`], taken out in insertion order.
pub type IntoIter<K> = std::vec::IntoIter<K>;

impl<K> IntoIterator for VecSet<K> {
    type Item = K;
    type IntoIter = IntoIter<K>;

    fn into_iter(self) -> (it: IntoIter<K>)
        ensures
            vstd::std_specs::iter::IteratorSpec::remaining(&it) == self.0.0@.map_values(|kv: (K, ())| kv.0),
    {
        let ghost es = self.0.0@;
        let mut out: Vec<K> = Vec::new();
        for kv in iter: self.0.0
            invariant
                iter.seq() == es,
                out@ == es.take(iter.index() as int).map_values(|e: (K, ())| e.0),
        {
            proof {
                assert(es.take(iter.index() + 1) =~= es.take(iter.index() as int).push(es[iter.index() as int]));
            }
            out.push(kv.0);
            proof {
                assert(out@ =~= es.take(iter.index() + 1).map_values(|e: (K, ())| e.0));
            }
        }
        proof {
            assert(es.take(es.len() as int) =~= es);
            broadcast use vstd::std_specs::vec::axiom_spec_into_iter;
        }
        out.into_iter()
    }
}

/// A cursor over the elements of a [`VecSet`], in insertion order.
pub struct Iter<'a, K> {
    pub entries: &'a [(K, ())],
    pub pos: usize,
}

impl<'a, K> Iter<'a, K> {
    /// The elements not handed out yet, in order.
    pub open spec fn rest(&self) -> Seq<&'a K> {
        if self.pos < self.entries@.len() {
            Seq::new((self.entries@.len() - self.pos) as nat, |i: int| &self.entries@[self.pos + i].0)
        } else {
            Seq::empty()
        }
    }
}

impl<'a, K> Iterator for Iter<'a, K> {
    type Item = &'a K;

    /// The next element, if any.
    fn next(&mut self) -> (r: Option<&'a K>)
        ensures
            final(self).entries@ == old(self).entries@,
            old(self).pos < old(self).entries@.len() ==> final(self).pos == old(self).pos + 1
                && r == Some(&old(self).entries@[old(self).pos as int].0),
            old(self).pos >= old(self).entries@.len() ==> final(self).pos == old(self).pos && r is None,
    {
        if self.pos < self.entries.len() {
            let e = &self.entries[self.pos];
            self.pos = self.pos + 1;
            proof {
                assert(self.rest() =~= old(self).rest().drop_first());
            }
            Some(&e.0)
        } else {
            None
        }
    }
}

impl<'a, K> vstd::std_specs::iter::IteratorSpecImpl for Iter<'a, K> {
    open spec fn obeys_prophetic_iter_laws(&self) -> bool {
        true
    }

    open spec fn remaining(&self) -> Seq<&'a K> {
        self.rest()
    }

    open spec fn will_return_none(&self) -> bool {
        true
    }

    open spec fn decrease(&self) -> Option<nat> {
        Some(self.rest().len())
    }

    open spec fn initial_value_relation(&self, init: &Self) -> bool {
        self.rest() == init.rest()
    }

    open spec fn peek(&self, index: int) -> Option<&'a K> {
        if 0 <= index < self.rest().len() {
            Some(self.rest()[index])
        } else {
            None
        }
    }
}

} // verus!
