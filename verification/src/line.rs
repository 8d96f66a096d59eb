//! One row of the comparison cache: the results of one key against others.

use crate::compare::CompareResult;
use crate::ordpaths::Key;
use vstd::prelude::*;

verus! {

/// A list of `(key, result)` cells in which no key occurs twice.
#[derive(Debug)]
pub struct Line {
    cells: Vec<(String, CompareResult)>,
}

/// Whether some cell of `cells` has the key `k`.
pub open spec fn has_key(cells: Seq<(Key, CompareResult)>, k: Key) -> bool {
    exists|j: int| 0 <= j < cells.len() && (#[trigger] cells[j]).0 == k
}

/// The index of a cell with the key `k`.
pub open spec fn index_of(cells: Seq<(Key, CompareResult)>, k: Key) -> int {
    choose|j: int| 0 <= j < cells.len() && (#[trigger] cells[j]).0 == k
}

/// No key occurs in two cells.
pub open spec fn distinct_keys(cells: Seq<(Key, CompareResult)>) -> bool {
    forall|i: int, j: int|
        0 <= i < cells.len() && 0 <= j < cells.len() && i != j ==> (#[trigger] cells[i]).0 != (
        #[trigger] cells[j]).0
}

/// The map that a list of cells stands for.
pub open spec fn map_of(cells: Seq<(Key, CompareResult)>) -> Map<Key, CompareResult> {
    Map::new(|k: Key| has_key(cells, k), |k: Key| cells[index_of(cells, k)].1)
}

/// In a list without repeated keys each cell is what the map holds for its key.
pub proof fn lemma_cell_in_map(cells: Seq<(Key, CompareResult)>, j: int)
    requires
        distinct_keys(cells),
        0 <= j < cells.len(),
    ensures
        map_of(cells).dom().contains(cells[j].0),
        map_of(cells)[cells[j].0] == cells[j].1,
        index_of(cells, cells[j].0) == j,
{
    assert(has_key(cells, cells[j].0));
}

impl Line {
    /// The cells in stored order, keys by their characters.
    pub closed spec fn cells(&self) -> Seq<(Key, CompareResult)> {
        Seq::new(self.cells@.len(), |j: int| (self.cells@[j].0@, self.cells@[j].1))
    }

    /// The invariant: no key occurs twice.
    pub open spec fn wf(&self) -> bool {
        distinct_keys(self.cells())
    }

    /// The row as a map from key to result.
    pub open spec fn view(&self) -> Map<Key, CompareResult> {
        map_of(self.cells())
    }

    /// An empty row.
    pub fn new() -> (l: Line)
        ensures
            l.wf(),
            l@ == Map::<Key, CompareResult>::empty(),
            l.cells().len() == 0,
    {
        let l = Line { cells: Vec::new() };
        assert(l@ =~= Map::<Key, CompareResult>::empty());
        l
    }

    /// The number of cells.
    pub fn len(&self) -> (n: usize)
        ensures
            n == self.cells().len(),
    {
        self.cells.len()
    }

    /// The key of the cell at `j`.
    pub fn key_at(&self, j: usize) -> (k: &String)
        requires
            j < self.cells().len(),
        ensures
            k@ == self.cells()[j as int].0,
    {
        &self.cells[j].0
    }

    /// The result of the cell at `j`.
    pub fn value_at(&self, j: usize) -> (v: CompareResult)
        requires
            j < self.cells().len(),
        ensures
            v == self.cells()[j as int].1,
    {
        self.cells[j].1
    }

    /// Where the cell with the given key stands, if there is one.
    pub fn position(&self, key: &String) -> (r: Option<usize>)
        ensures
            match r {
                Some(j) => j < self.cells().len() && self.cells()[j as int].0 == key@,
                None => !has_key(self.cells(), key@),
            },
    {
        let mut j: usize = 0;
        while j < self.cells.len()
            invariant
                j <= self.cells@.len(),
                forall|i: int| 0 <= i < j ==> (#[trigger] self.cells()[i]).0 != key@,
            decreases self.cells@.len() - j,
        {
            if self.cells[j].0 == *key {
                return Some(j);
            }
            j += 1;
        }
        None
    }

    /// The result stored for `key`, if any.
    pub fn get(&self, key: &String) -> (r: Option<CompareResult>)
        requires
            self.wf(),
        ensures
            r == (if self@.dom().contains(key@) {
                Some(self@[key@])
            } else {
                None
            }),
    {
        match self.position(key) {
            Some(j) => {
                proof {
                    lemma_cell_in_map(self.cells(), j as int);
                }
                Some(self.cells[j].1)
            },
            None => None,
        }
    }

    /// Stores `value` for `key`, in place of what was stored for it.
    pub fn set(&mut self, key: &String, value: CompareResult)
        requires
            old(self).wf(),
        ensures
            final(self).wf(),
            final(self)@ == old(self)@.insert(key@, value),
    {
        let ghost before = self.cells();
        match self.position(key) {
            Some(j) => {
                self.cells[j].1 = value;
                proof {
                    let after = self.cells();
                    assert(after.len() == before.len());
                    assert forall|i: int| 0 <= i < after.len() implies (#[trigger] after[i]).0
                        == before[i].0 by {}
                    assert(after[j as int].1 == value);
                    assert forall|k: Key| has_key(after, k) == has_key(before, k) by {
                        if has_key(before, k) {
                            let i = index_of(before, k);
                            assert(after[i].0 == k);
                        }
                        if has_key(after, k) {
                            let i = index_of(after, k);
                            assert(before[i].0 == k);
                        }
                    }
                    assert(has_key(before, key@));
                    assert forall|k: Key| has_key(after, k) implies map_of(after)[k] == (if k
                        == key@ {
                        value
                    } else {
                        map_of(before)[k]
                    }) by {
                        let i = index_of(after, k);
                        lemma_cell_in_map(after, i);
                        lemma_cell_in_map(before, i);
                        if k == key@ {
                            assert(i == j);
                        } else {
                            assert(after[i].1 == before[i].1);
                        }
                    }
                    assert(map_of(after) =~= map_of(before).insert(key@, value));
                }
            },
            None => {
                self.cells.push((key.clone(), value));
                proof {
                    let after = self.cells();
                    let n = before.len() as int;
                    assert(after.len() == n + 1);
                    assert(after[n] == (key@, value));
                    assert forall|i: int| 0 <= i < n implies #[trigger] after[i] == before[i] by {}
                    assert forall|k: Key| has_key(after, k) == (has_key(before, k) || k
                        == key@) by {
                        if has_key(before, k) {
                            let i = index_of(before, k);
                            assert(after[i].0 == k);
                        }
                        if k == key@ {
                            assert(after[n].0 == k);
                        }
                        if has_key(after, k) && k != key@ {
                            let i = index_of(after, k);
                            assert(before[i].0 == k);
                        }
                    }
                    assert forall|k: Key| has_key(after, k) implies map_of(after)[k] == (if k
                        == key@ {
                        value
                    } else {
                        map_of(before)[k]
                    }) by {
                        let i = index_of(after, k);
                        lemma_cell_in_map(after, i);
                        if k != key@ {
                            lemma_cell_in_map(before, i);
                        }
                    }
                    assert(map_of(after) =~= map_of(before).insert(key@, value));
                }
            },
        }
    }

    /// Takes the cell of `key` out, if there is one.
    pub fn remove(&mut self, key: &String)
        requires
            old(self).wf(),
        ensures
            final(self).wf(),
            final(self)@ == old(self)@.remove(key@),
    {
        let ghost before = self.cells();
        match self.position(key) {
            Some(j) => {
                self.cells.remove(j);
                proof {
                    let after = self.cells();
                    assert(after =~= before.remove(j as int));
                    assert forall|i: int, l: int|
                        0 <= i < after.len() && 0 <= l < after.len() && i != l implies (
                    #[trigger] after[i]).0 != (#[trigger] after[l]).0 by {
                        let oi = if i < j {
                            i
                        } else {
                            i + 1
                        };
                        let ol = if l < j {
                            l
                        } else {
                            l + 1
                        };
                        assert(before[oi].0 != before[ol].0);
                    }
                    assert forall|k: Key| has_key(after, k) == (has_key(before, k) && k
                        != key@) by {
                        if has_key(before, k) && k != key@ {
                            let i = index_of(before, k);
                            if i < j {
                                assert(after[i].0 == k);
                            } else {
                                assert(after[i - 1].0 == k);
                            }
                        }
                        if has_key(after, k) {
                            let i = index_of(after, k);
                            let oi = if i < j {
                                i
                            } else {
                                i + 1
                            };
                            assert(before[oi].0 == k);
                            assert(before[oi].0 != before[j as int].0);
                        }
                    }
                    assert forall|k: Key| has_key(after, k) implies map_of(after)[k] == map_of(
                        before,
                    )[k] by {
                        let i = index_of(after, k);
                        let oi = if i < j {
                            i
                        } else {
                            i + 1
                        };
                        lemma_cell_in_map(after, i);
                        lemma_cell_in_map(before, oi);
                    }
                    assert(map_of(after) =~= map_of(before).remove(key@));
                }
            },
            None => {
                assert(map_of(before) =~= map_of(before).remove(key@));
            },
        }
    }

    /// Adds a cell for a key that has none.
    pub fn push(&mut self, key: String, value: CompareResult)
        requires
            old(self).wf(),
            !has_key(old(self).cells(), key@),
        ensures
            final(self).wf(),
            final(self).cells() == old(self).cells().push((key@, value)),
    {
        let ghost before = self.cells();
        self.cells.push((key, value));
        proof {
            let after = self.cells();
            assert(after =~= before.push((key@, value)));
            assert forall|i: int, j: int|
                0 <= i < after.len() && 0 <= j < after.len() && i != j implies (
            #[trigger] after[i]).0 != (#[trigger] after[j]).0 by {
                if i < before.len() && j < before.len() {
                    assert(before[i].0 != before[j].0);
                } else if i < before.len() {
                    assert(before[i].0 != key@);
                } else {
                    assert(before[j].0 != key@);
                }
            }
        }
    }

    /// The cells as plain values, results by their weight.
    pub fn export(&self) -> (out: Vec<(String, i8)>)
        ensures
            out@.len() == self.cells().len(),
            forall|j: int|
                0 <= j < out@.len() ==> (#[trigger] out@[j]).0@ == self.cells()[j].0 && out@[j].1
                    == self.cells()[j].1.value(),
    {
        let mut out: Vec<(String, i8)> = Vec::new();
        let mut j: usize = 0;
        while j < self.cells.len()
            invariant
                j <= self.cells@.len(),
                out@.len() == j,
                forall|i: int|
                    0 <= i < j ==> (#[trigger] out@[i]).0@ == self.cells()[i].0 && out@[i].1
                        == self.cells()[i].1.value(),
            decreases self.cells@.len() - j,
        {
            out.push((self.cells[j].0.clone(), self.cells[j].1.to_i8()));
            j += 1;
        }
        out
    }
}

} // verus!
