//! A small map from names to values, kept as a list.

use crate::ordpaths::Key;
use vstd::prelude::*;

verus! {

/// A map from names to values in which every name has one entry.
#[derive(Debug)]
pub struct Assoc<V> {
    entries: Vec<(String, V)>,
}

impl<V> View for Assoc<V> {
    type V = Map<Key, V>;

    /// The map that the entries stand for.
    closed spec fn view(&self) -> Map<Key, V> {
        Map::new(|k: Key| self.has(k), |k: Key| self.entries@[self.index_of(k)].1)
    }
}

impl<V> Assoc<V> {
    /// Whether an entry has the name `k`.
    pub closed spec fn has(&self, k: Key) -> bool {
        exists|i: int| 0 <= i < self.entries@.len() && (#[trigger] self.entries@[i]).0@ == k
    }

    /// The index of an entry with the name `k`.
    pub closed spec fn index_of(&self, k: Key) -> int {
        choose|i: int| 0 <= i < self.entries@.len() && (#[trigger] self.entries@[i]).0@ == k
    }

    /// The names in stored order.
    pub closed spec fn names(&self) -> Seq<Key> {
        Seq::new(self.entries@.len(), |i: int| self.entries@[i].0@)
    }

    /// The values in stored order.
    pub closed spec fn values(&self) -> Seq<V> {
        Seq::new(self.entries@.len(), |i: int| self.entries@[i].1)
    }

    /// The invariant: no name occurs twice.
    pub closed spec fn wf(&self) -> bool {
        forall|i: int, j: int|
            0 <= i < self.entries@.len() && 0 <= j < self.entries@.len() && i != j ==> (
            #[trigger] self.entries@[i]).0@ != (#[trigger] self.entries@[j]).0@
    }

    /// A name of the map has an entry, at the index that `index_of` gives.
    pub proof fn lemma_index(&self, k: Key)
        requires
            self.wf(),
            self@.dom().contains(k),
        ensures
            0 <= self.index_of(k) < self.names().len(),
            self.names().len() == self.values().len(),
            self.names()[self.index_of(k)] == k,
            self.values()[self.index_of(k)] == self@[k],
    {
    }

    /// An entry is an entry of the map, and `index_of` gives its index.
    pub proof fn lemma_entry(&self, i: int)
        requires
            self.wf(),
            0 <= i < self.names().len(),
        ensures
            self.names().len() == self.values().len(),
            self@.dom().contains(self.names()[i]),
            self@[self.names()[i]] == self.values()[i],
            self.index_of(self.names()[i]) == i,
    {
        assert(self.entries@[i].0@ == self.names()[i]);
        assert(self.has(self.names()[i]));
        let j = self.index_of(self.names()[i]);
        assert(self.entries@[j].0@ == self.entries@[i].0@);
    }

    /// The empty map.
    pub fn new() -> (a: Assoc<V>)
        ensures
            a.wf(),
            a@ == Map::<Key, V>::empty(),
            a.names().len() == 0,
    {
        let a = Assoc { entries: Vec::new() };
        assert(a@ =~= Map::<Key, V>::empty());
        a
    }

    /// The number of entries.
    pub fn len(&self) -> (n: usize)
        ensures
            n == self.names().len(),
            n == self.values().len(),
    {
        self.entries.len()
    }

    /// The name of the entry at `i`.
    pub fn name_at(&self, i: usize) -> (k: &String)
        requires
            i < self.names().len(),
        ensures
            k@ == self.names()[i as int],
    {
        &self.entries[i].0
    }

    /// The value of the entry at `i`.
    pub fn value_at(&self, i: usize) -> (v: &V)
        requires
            i < self.values().len(),
        ensures
            *v == self.values()[i as int],
    {
        &self.entries[i].1
    }

    /// Where the entry of `name` stands, if there is one.
    pub fn position(&self, name: &String) -> (r: Option<usize>)
        requires
            self.wf(),
        ensures
            match r {
                Some(i) => i < self.names().len() && self.names()[i as int] == name@
                    && self@.dom().contains(name@) && self@[name@] == self.values()[i as int],
                None => !self@.dom().contains(name@),
            },
    {
        let mut i: usize = 0;
        while i < self.entries.len()
            invariant
                self.wf(),
                i <= self.entries@.len(),
                forall|j: int| 0 <= j < i ==> (#[trigger] self.entries@[j]).0@ != name@,
            decreases self.entries@.len() - i,
        {
            if self.entries[i].0 == *name {
                proof {
                    assert(self.has(name@));
                    let j = self.index_of(name@);
                    assert(self.entries@[j].0@ == self.entries@[i as int].0@);
                    assert(j == i);
                }
                return Some(i);
            }
            i += 1;
        }
        None
    }

    /// The value of `name`, if it has one.
    pub fn get(&self, name: &String) -> (r: Option<&V>)
        requires
            self.wf(),
        ensures
            match r {
                Some(v) => self@.dom().contains(name@) && *v == self@[name@],
                None => !self@.dom().contains(name@),
            },
    {
        match self.position(name) {
            Some(i) => Some(&self.entries[i].1),
            None => None,
        }
    }

    /// Gives `name` the value `value`, in place of the one it had.
    pub fn insert(&mut self, name: String, value: V)
        requires
            old(self).wf(),
        ensures
            final(self).wf(),
            final(self)@ == old(self)@.insert(name@, value),
    {
        let ghost before = *self;
        match self.position(&name) {
            Some(i) => {
                self.entries[i].1 = value;
                proof {
                    assert forall|j: int| 0 <= j < self.entries@.len() implies (
                    #[trigger] self.entries@[j]).0@ == before.entries@[j].0@ by {}
                    assert forall|k: Key| self.has(k) == before.has(k) by {
                        if before.has(k) {
                            let j = before.index_of(k);
                            assert(self.entries@[j].0@ == k);
                        }
                        if self.has(k) {
                            let j = self.index_of(k);
                            assert(before.entries@[j].0@ == k);
                        }
                    }
                    assert forall|k: Key| self.has(k) implies self.entries@[self.index_of(k)].1
                        == (if k == name@ {
                        value
                    } else {
                        before.entries@[before.index_of(k)].1
                    }) by {
                        let j = self.index_of(k);
                        let l = before.index_of(k);
                        assert(before.entries@[j].0@ == k);
                        assert(j == l);
                    }
                    assert(self@ =~= before@.insert(name@, value));
                }
            },
            None => {
                self.entries.push((name, value));
                proof {
                    let n = before.entries@.len() as int;
                    assert forall|j: int| 0 <= j < n implies #[trigger] self.entries@[j]
                        == before.entries@[j] by {}
                    assert(self.entries@[n].0@ == name@);
                    assert forall|k: Key| self.has(k) == (before.has(k) || k == name@) by {
                        if before.has(k) {
                            let j = before.index_of(k);
                            assert(self.entries@[j].0@ == k);
                        }
                        if self.has(k) && k != name@ {
                            let j = self.index_of(k);
                            assert(before.entries@[j].0@ == k);
                        }
                    }
                    assert forall|k: Key| self.has(k) implies self.entries@[self.index_of(k)].1
                        == (if k == name@ {
                        value
                    } else {
                        before.entries@[before.index_of(k)].1
                    }) by {
                        let j = self.index_of(k);
                        if k != name@ {
                            let l = before.index_of(k);
                            assert(before.entries@[j].0@ == k);
                            assert(j == l);
                        } else {
                            assert(j == n);
                        }
                    }
                    assert(self@ =~= before@.insert(name@, value));
                }
            },
        }
    }

    /// Puts `value` in the place of the value of the entry at `i`.
    pub fn set_at(&mut self, i: usize, value: V)
        requires
            old(self).wf(),
            i < old(self).names().len(),
        ensures
            final(self).wf(),
            final(self).names() == old(self).names(),
            final(self).values() == old(self).values().update(i as int, value),
            final(self)@ == old(self)@.insert(old(self).names()[i as int], value),
    {
        let ghost before = *self;
        self.entries[i].1 = value;
        proof {
            assert forall|j: int| 0 <= j < self.entries@.len() implies (
            #[trigger] self.entries@[j]).0@ == before.entries@[j].0@ by {}
            assert(self.names() =~= before.names());
            assert(self.values() =~= before.values().update(i as int, value));
            let name = before.names()[i as int];
            assert forall|k: Key| self.has(k) == before.has(k) by {
                if before.has(k) {
                    let j = before.index_of(k);
                    assert(self.entries@[j].0@ == k);
                }
                if self.has(k) {
                    let j = self.index_of(k);
                    assert(before.entries@[j].0@ == k);
                }
            }
            assert(before.entries@[i as int].0@ == name);
            assert(before.has(name));
            assert forall|k: Key| self.has(k) implies self.entries@[self.index_of(k)].1 == (if k
                == name {
                value
            } else {
                before.entries@[before.index_of(k)].1
            }) by {
                let j = self.index_of(k);
                let l = before.index_of(k);
                assert(before.entries@[j].0@ == k);
                assert(j == l);
            }
            assert(self@ =~= before@.insert(name, value));
        }
    }

    /// Takes `name` out and returns the value it had.
    pub fn remove(&mut self, name: &String) -> (r: Option<V>)
        requires
            old(self).wf(),
        ensures
            final(self).wf(),
            final(self)@ == old(self)@.remove(name@),
            match r {
                Some(v) => old(self)@.dom().contains(name@) && v == old(self)@[name@],
                None => !old(self)@.dom().contains(name@),
            },
    {
        let ghost before = *self;
        match self.position(name) {
            Some(i) => {
                let entry = self.entries.remove(i);
                proof {
                    assert forall|j: int| 0 <= j < self.entries@.len() implies (
                    #[trigger] self.entries@[j]) == (if j < i {
                        before.entries@[j]
                    } else {
                        before.entries@[j + 1]
                    }) by {}
                    assert forall|k: Key| self.has(k) == (before.has(k) && k != name@) by {
                        if before.has(k) && k != name@ {
                            let j = before.index_of(k);
                            if j < i {
                                assert(self.entries@[j].0@ == k);
                            } else {
                                assert(self.entries@[j - 1].0@ == k);
                            }
                        }
                        if self.has(k) {
                            let j = self.index_of(k);
                            let oj = if j < i {
                                j
                            } else {
                                j + 1
                            };
                            assert(before.entries@[oj].0@ == k);
                            assert(before.entries@[oj].0@ != before.entries@[i as int].0@);
                        }
                    }
                    assert forall|k: Key| self.has(k) implies self.entries@[self.index_of(k)].1
                        == before.entries@[before.index_of(k)].1 by {
                        let j = self.index_of(k);
                        let oj = if j < i {
                            j
                        } else {
                            j + 1
                        };
                        let l = before.index_of(k);
                        assert(before.entries@[oj].0@ == k);
                        assert(oj == l);
                    }
                    assert forall|j: int, l: int|
                        0 <= j < self.entries@.len() && 0 <= l < self.entries@.len()
                            && j != l implies (
                    #[trigger] self.entries@[j]).0@ != (#[trigger] self.entries@[l]).0@ by {
                        let oj = if j < i {
                            j
                        } else {
                            j + 1
                        };
                        let ol = if l < i {
                            l
                        } else {
                            l + 1
                        };
                        assert(before.entries@[oj].0@ != before.entries@[ol].0@);
                    }
                    assert(self@ =~= before@.remove(name@));
                }
                Some(entry.1)
            },
            None => {
                assert(self@ =~= before@.remove(name@));
                None
            },
        }
    }
}

} // verus!
