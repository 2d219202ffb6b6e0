//! A small map keyed by text.

use crate::text::{position, views};
use vstd::prelude::*;

verus! {

/// Values by name. The names are distinct and keep the order in which they
/// were first inserted.
pub struct NameMap<V> {
    names: Vec<String>,
    values: Vec<V>,
}

impl<V> NameMap<V> {
    pub closed spec fn wf(&self) -> bool {
        &&& self.names.len() == self.values.len()
        &&& views(self.names@).no_duplicates()
    }

    /// The names, in the order of their first insertion.
    pub closed spec fn keys(&self) -> Seq<Seq<char>> {
        views(self.names@)
    }

    /// The values, in the order of their names.
    pub closed spec fn vals(&self) -> Seq<V> {
        self.values@
    }

    /// The value under each name.
    pub open spec fn view(&self) -> Map<Seq<char>, V> {
        Map::new(
            |k: Seq<char>| self.keys().contains(k),
            |k: Seq<char>| self.vals()[self.keys().index_of(k)],
        )
    }

    pub fn new() -> (m: NameMap<V>)
        ensures
            m.wf(),
            m@ == Map::<Seq<char>, V>::empty(),
            m.keys() == Seq::<Seq<char>>::empty(),
    {
        let m = NameMap { names: Vec::new(), values: Vec::new() };
        assert(m.keys() =~= Seq::<Seq<char>>::empty());
        assert(m@ =~= Map::<Seq<char>, V>::empty());
        m
    }

    proof fn lemma_at(&self, i: int)
        requires
            self.wf(),
            0 <= i < self.keys().len(),
        ensures
            self@.contains_key(self.keys()[i]),
            self@[self.keys()[i]] == self.vals()[i],
    {
        let k = self.keys()[i];
        assert(self.keys().contains(k));
        assert(self.keys()[self.keys().index_of(k)] == k);
    }

    pub fn get(&self, name: &str) -> (r: Option<&V>)
        requires
            self.wf(),
        ensures
            r is Some <==> self@.contains_key(name@),
            r matches Some(v) ==> *v == self@[name@],
    {
        match position(&self.names, name) {
            Some(i) => {
                proof {
                    self.lemma_at(i as int);
                }
                Some(&self.values[i])
            },
            None => None,
        }
    }

    pub fn len(&self) -> (r: usize)
        ensures
            r == self.keys().len(),
    {
        self.names.len()
    }

    /// The name that was inserted as number `i`.
    pub fn key_at(&self, i: usize) -> (r: &str)
        requires
            i < self.keys().len(),
        ensures
            r@ == self.keys()[i as int],
    {
        self.names[i].as_str()
    }

    /// The value of the name that was inserted as number `i`.
    pub fn value_at(&self, i: usize) -> (r: &V)
        requires
            self.wf(),
            i < self.keys().len(),
        ensures
            self@.contains_key(self.keys()[i as int]),
            *r == self@[self.keys()[i as int]],
    {
        proof {
            self.lemma_at(i as int);
        }
        &self.values[i]
    }

    pub fn contains(&self, name: &str) -> (r: bool)
        requires
            self.wf(),
        ensures
            r == self@.contains_key(name@),
    {
        position(&self.names, name).is_some()
    }

    pub fn insert(&mut self, name: String, value: V)
        requires
            old(self).wf(),
        ensures
            final(self).wf(),
            final(self)@ == old(self)@.insert(name@, value),
            final(self).keys() == if old(self)@.contains_key(name@) {
                old(self).keys()
            } else {
                old(self).keys().push(name@)
            },
    {
        let ghost before = *self;
        match position(&self.names, name.as_str()) {
            Some(i) => {
                self.values.set(i, value);
                proof {
                    let k = self.keys();
                    assert(k == before.keys());
                    assert forall|n: Seq<char>| k.contains(n) implies self@[n] == before@.insert(name@, value)[n] by {
                        let j = k.index_of(n);
                        assert(k[j] == n);
                        if j == i {
                            assert(n == name@);
                        } else {
                            assert(k[i as int] == name@);
                        }
                    }
                    assert(before.keys().contains(name@));
                    assert(self@ =~= before@.insert(name@, value));
                }
            },
            None => {
                let ghost nm = name@;
                self.names.push(name);
                self.values.push(value);
                proof {
                    assert(self.keys() =~= before.keys().push(nm));
                    let k = self.keys();
                    assert(k.no_duplicates()) by {
                        assert forall|a: int, b: int| 0 <= a < k.len() && 0 <= b < k.len() && a != b implies k[a] != k[b] by {
                            if a == k.len() - 1 {
                                assert(before.keys().contains(before.keys()[b]));
                            } else if b == k.len() - 1 {
                                assert(before.keys().contains(before.keys()[a]));
                            }
                        }
                    }
                    assert forall|n: Seq<char>| self@.contains_key(n) implies self@[n] == before@.insert(nm, value)[n] by {
                        let j = k.index_of(n);
                        assert(k[j] == n);
                        if j < before.keys().len() {
                            assert(before.keys()[j] == n);
                            before.lemma_at(j);
                        }
                    }
                    assert forall|n: Seq<char>| self@.contains_key(n) <==> before@.insert(nm, value).contains_key(n) by {
                        if before.keys().contains(n) {
                            let j = before.keys().index_of(n);
                            assert(k[j] == n);
                        }
                        if n == nm {
                            assert(k[k.len() - 1] == nm);
                        }
                        if k.contains(n) {
                            let j = k.index_of(n);
                            if j < before.keys().len() {
                                assert(before.keys()[j] == n);
                            }
                        }
                    }
                    assert(self@ =~= before@.insert(nm, value));
                }
            },
        }
    }
}

} // verus!
