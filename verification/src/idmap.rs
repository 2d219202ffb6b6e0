//! A map keyed by numbers that can be walked.

use std::collections::HashMap;
use vstd::prelude::*;

verus! {

broadcast use vstd::std_specs::hash::group_hash_axioms;

/// Values by number. The values stand in a row, so that they can be walked; a
/// value that is removed is replaced by the last one.
pub struct IdMap<V> {
    index: HashMap<u64, usize>,
    ids: Vec<u64>,
    values: Vec<V>,
}

impl<V> IdMap<V> {
    pub closed spec fn wf(&self) -> bool {
        &&& self.ids.len() == self.values.len()
        &&& forall|i: int|
            0 <= i < self.ids.len() ==> self.index@.contains_key(#[trigger] self.ids[i])
                && self.index@[self.ids[i]] == i
        &&& forall|k: u64| #[trigger]
            self.index@.contains_key(k) ==> self.index@[k] < self.ids.len()
                && self.ids[self.index@[k] as int] == k
    }

    /// The numbers, in the order in which the values are walked.
    pub closed spec fn ids(&self) -> Seq<u64> {
        self.ids@
    }

    /// The values, in the order of their numbers.
    pub closed spec fn vals(&self) -> Seq<V> {
        self.values@
    }

    /// The value under each number.
    pub closed spec fn view(&self) -> Map<u64, V> {
        Map::new(|k: u64| self.index@.contains_key(k), |k: u64| self.values@[self.index@[k] as int])
    }

    /// The rows hold what the map holds.
    pub proof fn lemma_rows(&self)
        requires
            self.wf(),
        ensures
            self.ids().len() == self.vals().len(),
            self.ids().no_duplicates(),
            forall|i: int| #![trigger self.ids()[i]] #![trigger self.vals()[i]]
                0 <= i < self.ids().len() ==> self@.contains_key(self.ids()[i])
                    && self@[self.ids()[i]] == self.vals()[i],
            forall|k: u64| #[trigger] self@.contains_key(k) ==> self.ids().contains(k),
    {
        assert forall|i: int, j: int| 0 <= i < self.ids().len() && 0 <= j < self.ids().len() && i != j implies self.ids()[i] != self.ids()[j] by {
            assert(self.index@[self.ids[i]] == i);
            assert(self.index@[self.ids[j]] == j);
        }
        assert forall|k: u64| #[trigger] self@.contains_key(k) implies self.ids().contains(k) by {
            assert(self.ids@[self.index@[k] as int] == k);
        }
    }

    pub fn new() -> (m: IdMap<V>)
        ensures
            m.wf(),
            m@ == Map::<u64, V>::empty(),
            m.ids() == Seq::<u64>::empty(),
            m.vals() == Seq::<V>::empty(),
    {
        let m = IdMap { index: HashMap::new(), ids: Vec::new(), values: Vec::new() };
        assert(m@ =~= Map::<u64, V>::empty());
        m
    }

    pub fn len(&self) -> (r: usize)
        requires
            self.wf(),
        ensures
            r == self.ids().len(),
            r == self.vals().len(),
    {
        self.ids.len()
    }

    /// Where the value with a number stands.
    pub fn find(&self, id: u64) -> (r: Option<usize>)
        requires
            self.wf(),
        ensures
            r is Some <==> self@.contains_key(id),
            r matches Some(i) ==> i < self.ids().len() && i < self.vals().len()
                && self.ids()[i as int] == id
                && self.vals()[i as int] == self@[id],
    {
        match self.index.get(&id) {
            Some(i) => Some(*i),
            None => None,
        }
    }

    pub fn contains(&self, id: u64) -> (r: bool)
        requires
            self.wf(),
        ensures
            r == self@.contains_key(id),
    {
        self.index.contains_key(&id)
    }

    pub fn get(&self, id: u64) -> (r: Option<&V>)
        requires
            self.wf(),
        ensures
            r is Some <==> self@.contains_key(id),
            r matches Some(v) ==> *v == self@[id],
    {
        match self.index.get(&id) {
            Some(i) => Some(&self.values[*i]),
            None => None,
        }
    }

    pub fn id_at(&self, i: usize) -> (r: u64)
        requires
            self.wf(),
            i < self.ids().len(),
        ensures
            r == self.ids()[i as int],
    {
        self.ids[i]
    }

    pub fn value_at(&self, i: usize) -> (r: &V)
        requires
            self.wf(),
            i < self.vals().len(),
        ensures
            *r == self.vals()[i as int],
    {
        &self.values[i]
    }

    /// Access to the value at a place.
    pub fn value_mut(&mut self, i: usize) -> (r: &mut V)
        requires
            old(self).wf(),
            i < old(self).vals().len(),
        ensures
            *r == old(self).vals()[i as int],
            final(self).wf(),
            final(self).ids() == old(self).ids(),
            final(self).vals() == old(self).vals().update(i as int, *final(r)),
            final(self)@ == old(self)@.insert(old(self).ids()[i as int], *final(r)),
    {
        let ghost before = *self;
        let r = &mut self.values[i];
        proof {
            let after = IdMap { index: before.index, ids: before.ids, values: after_borrow(self.values) };
            assert(after.wf());
            assert(after@ =~= before@.insert(before.ids()[i as int], *final(r)));
        }
        r
    }

    /// Keeps a value. One that had the same number is given up, and its place is
    /// taken.
    pub fn insert(&mut self, id: u64, value: V)
        requires
            old(self).wf(),
        ensures
            final(self).wf(),
            final(self)@ == old(self)@.insert(id, value),
            old(self)@.contains_key(id) ==> final(self).ids() == old(self).ids(),
            !old(self)@.contains_key(id) ==> final(self).ids() == old(self).ids().push(id)
                && final(self).vals() == old(self).vals().push(value),
    {
        match self.find(id) {
            Some(i) => {
                self.values.set(i, value);
            },
            None => {
                self.index.insert(id, self.ids.len());
                self.ids.push(id);
                self.values.push(value);
                assert(self.wf()) by {
                    assert forall|k: u64| #[trigger]
                        self.index@.contains_key(k) implies self.index@[k] < self.ids.len()
                        && self.ids[self.index@[k] as int] == k by {
                        if k != id {
                            assert(old(self).index@.contains_key(k));
                        }
                    }
                }
            },
        }
        assert(self@ =~= old(self)@.insert(id, value));
    }

    /// Gives a value up.
    pub fn remove(&mut self, id: u64) -> (r: Option<V>)
        requires
            old(self).wf(),
        ensures
            final(self).wf(),
            final(self)@ == old(self)@.remove(id),
            r == if old(self)@.contains_key(id) {
                Some(old(self)@[id])
            } else {
                None
            },
            r is None ==> *final(self) == *old(self),
            final(self).ids().len() <= old(self).ids().len(),
    {
        match self.find(id) {
            Some(i) => {
                let last: usize = self.ids.len() - 1;
                let moved: u64 = self.ids[last];
                self.ids.swap_remove(i);
                let v = self.values.swap_remove(i);
                self.index.remove(&id);
                if i != last {
                    self.index.insert(moved, i);
                }
                proof {
                    let a = *old(self);
                    assert(a.index@[a.ids[last as int]] == last);
                    assert forall|j: int| 0 <= j < self.ids.len() implies self.index@.contains_key(#[trigger] self.ids[j])
                        && self.index@[self.ids[j]] == j by {
                        if j == i {
                            assert(self.ids[j] == moved);
                        } else {
                            assert(self.ids[j] == a.ids[j]);
                            assert(a.index@[a.ids[j]] == j);
                        }
                    }
                    assert forall|k: u64| #[trigger] self.index@.contains_key(k) implies self.index@[k] < self.ids.len()
                        && self.ids[self.index@[k] as int] == k by {
                        if k != moved || i == last {
                            assert(a.index@.contains_key(k));
                            assert(k != id);
                        }
                    }
                    assert(self@ =~= a@.remove(id));
                }
                Some(v)
            },
            None => {
                assert(self@ =~= old(self)@.remove(id));
                None
            },
        }
    }
}

} // verus!
