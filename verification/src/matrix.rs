//! The comparison cache: a sparse relation over canonical keys.
//!
//! Each known key has a row with the group of items that stands behind the
//! key and the results of the key against other keys. The cache keeps the
//! relation closed: every result has its mirror, and tied keys share their
//! results, which are stored in full and never derived when asked.

use crate::compare::CompareResult;
use crate::line::{distinct_keys, has_key, index_of, lemma_cell_in_map, map_of, Line};
use crate::ordpaths::{list_has, listed, Key, OrdPaths};
use crate::relation::{
    carried, cell, closed, in_class, inserted, inserted_cell, inserted_groups, joint_cell,
    law_insert_answers, lemma_inserted_cell, lemma_inserted_closed, lemma_member_cell,
    lemma_removed_closed, lemma_same_cells, lemma_sides_apart, lemma_tied_equivalence,
    lemma_tied_rows_agree, lookup, removed, side_a, side_b, stored, tied, Relation,
};
use vstd::prelude::*;

verus! {

/// The group behind a key and the results of that key.
#[derive(Debug)]
pub struct Row {
    group: OrdPaths,
    line: Line,
}

/// The cache of comparison results.
#[derive(Debug)]
pub struct Matrix {
    rows: Vec<Row>,
}

/// Whether the key `x` occurs in the list of cells `s`.
pub open spec fn listed_cell(s: Seq<(String, CompareResult)>, x: Key) -> bool {
    exists|j: int| 0 <= j < s.len() && (#[trigger] s[j]).0@ == x
}

/// Whether writing the pair of `xs[i]` and `ys[j]` in both directions writes
/// the cell `(p, q)`.
pub open spec fn hit(
    xs: Seq<String>,
    ys: Seq<(String, CompareResult)>,
    i: int,
    j: int,
    p: Key,
    q: Key,
) -> bool {
    xs[i]@ != ys[j].0@ && ((xs[i]@ == p && ys[j].0@ == q) || (ys[j].0@ == p && xs[i]@ == q))
}

/// Whether a pair before `(i, j)`, rows first, writes the cell `(p, q)`.
pub open spec fn covered_before(
    xs: Seq<String>,
    ys: Seq<(String, CompareResult)>,
    i: int,
    j: int,
    p: Key,
    q: Key,
) -> bool {
    exists|a: int, b: int|
        0 <= a < xs.len() && 0 <= b < ys.len() && (a < i || (a == i && b < j)) && #[trigger] hit(
            xs,
            ys,
            a,
            b,
            p,
            q,
        )
}

/// Whether some pair of the block of `xs` and `ys` writes the cell `(p, q)`.
pub open spec fn covered(xs: Seq<String>, ys: Seq<(String, CompareResult)>, p: Key,
    q: Key) -> bool {
    covered_before(xs, ys, xs.len() as int, 0, p, q)
}

/// Whether `s` lists `x` as the key of a cell.
fn cells_have(s: &Vec<(String, CompareResult)>, x: &String) -> (b: bool)
    ensures
        b == listed_cell(s@, x@),
{
    let mut i: usize = 0;
    while i < s.len()
        invariant
            i <= s@.len(),
            forall|j: int| 0 <= j < i ==> (#[trigger] s@[j]).0@ != x@,
        decreases s@.len() - i,
    {
        if s[i].0 == *x {
            return true;
        }
        i += 1;
    }
    false
}

/// The keys of `s`, each with the result `v`.
fn with_value(s: &Vec<String>, v: CompareResult) -> (out: Vec<(String, CompareResult)>)
    ensures
        out@.len() == s@.len(),
        forall|j: int| 0 <= j < s@.len() ==> (#[trigger] out@[j]).0@ == s@[j]@ && out@[j].1 == v,
{
    let mut out: Vec<(String, CompareResult)> = Vec::new();
    let mut i: usize = 0;
    while i < s.len()
        invariant
            i <= s@.len(),
            out@.len() == i,
            forall|j: int| 0 <= j < i ==> (#[trigger] out@[j]).0@ == s@[j]@ && out@[j].1 == v,
        decreases s@.len() - i,
    {
        out.push((s[i].clone(), v));
        i += 1;
    }
    out
}

/// The keys of `s` but `x`.
fn dropped(s: &Vec<String>, x: &String) -> (out: Vec<String>)
    ensures
        forall|k: Key| listed(out@, k) == (listed(s@, k) && k != x@),
{
    let mut out: Vec<String> = Vec::new();
    let mut i: usize = 0;
    while i < s.len()
        invariant
            i <= s@.len(),
            forall|k: Key|
                listed(out@, k) == (k != x@ && exists|j: int|
                    0 <= j < i && (#[trigger] s@[j])@ == k),
        decreases s@.len() - i,
    {
        let ghost prev = out@;
        if s[i] != *x {
            out.push(s[i].clone());
        }
        proof {
            assert forall|k: Key|
                listed(out@, k) == (k != x@ && exists|j: int|
                    0 <= j < i + 1 && (#[trigger] s@[j])@ == k) by {
                if listed(out@, k) {
                    let w = choose|w: int| 0 <= w < out@.len() && (#[trigger] out@[w])@ == k;
                    if w < prev.len() {
                        assert(prev[w]@ == k);
                        assert(listed(prev, k));
                    } else {
                        assert(s@[i as int]@ == k);
                    }
                }
                if listed(prev, k) {
                    let w = choose|w: int| 0 <= w < prev.len() && (#[trigger] prev[w])@ == k;
                    assert(out@[w]@ == k);
                }
                if s@[i as int]@ == k && k != x@ {
                    assert(out@[prev.len() as int]@ == k);
                }
            }
        }
        i += 1;
    }
    out
}

/// The keys of `s` followed by the keys of `t`.
fn joined(s: &Vec<String>, t: &Vec<String>) -> (out: Vec<String>)
    ensures
        forall|x: Key| listed(out@, x) == (listed(s@, x) || listed(t@, x)),
{
    let mut out: Vec<String> = s.clone();
    assert(out@ =~= s@);
    let mut i: usize = 0;
    while i < t.len()
        invariant
            i <= t@.len(),
            forall|x: Key|
                listed(out@, x) == (listed(s@, x) || exists|j: int|
                    0 <= j < i && (#[trigger] t@[j])@ == x),
        decreases t@.len() - i,
    {
        let ghost prev = out@;
        out.push(t[i].clone());
        proof {
            assert forall|x: Key|
                listed(out@, x) == (listed(s@, x) || exists|j: int|
                    0 <= j < i + 1 && (#[trigger] t@[j])@ == x) by {
                if listed(out@, x) {
                    let w = choose|w: int| 0 <= w < out@.len() && (#[trigger] out@[w])@ == x;
                    if w < prev.len() {
                        assert(prev[w]@ == x);
                        assert(listed(prev, x));
                    } else {
                        assert(t@[i as int]@ == x);
                    }
                }
                if listed(prev, x) {
                    let w = choose|w: int| 0 <= w < prev.len() && (#[trigger] prev[w])@ == x;
                    assert(out@[w]@ == x);
                }
                if t@[i as int]@ == x {
                    assert(out@[prev.len() as int]@ == x);
                }
            }
        }
        i += 1;
    }
    out
}

impl Matrix {
    /// The number of rows.
    pub closed spec fn height(&self) -> int {
        self.rows@.len() as int
    }

    /// The canonical key of the row at `i`.
    pub closed spec fn key_at(&self, i: int) -> Key {
        self.rows@[i].group.key()
    }

    /// The members of the group of the row at `i`.
    pub closed spec fn group_at(&self, i: int) -> Seq<Key> {
        self.rows@[i].group@
    }

    /// The results of the row at `i`.
    pub closed spec fn line_at(&self, i: int) -> Map<Key, CompareResult> {
        self.rows@[i].line@
    }

    /// Whether a row has the key `k`.
    pub open spec fn has_row(&self, k: Key) -> bool {
        exists|i: int| 0 <= i < self.height() && #[trigger] self.key_at(i) == k
    }

    /// The index of a row with the key `k`.
    pub open spec fn row_of(&self, k: Key) -> int {
        choose|i: int| 0 <= i < self.height() && #[trigger] self.key_at(i) == k
    }

    /// The invariant of the representation: every group has a key, no key
    /// has two rows, and no row holds a key twice.
    pub closed spec fn inv(&self) -> bool {
        &&& forall|i: int|
            0 <= i < self.height() ==> (#[trigger] self.rows@[i]).group.wf()
                && self.rows@[i].line.wf()
        &&& forall|i: int, j: int|
            0 <= i < self.height() && 0 <= j < self.height() && i != j ==> #[trigger] self.key_at(
                i,
            ) != #[trigger] self.key_at(j)
    }

    /// The stored relation.
    pub open spec fn view(&self) -> Relation {
        Map::new(
            |k: (Key, Key)| self.has_row(k.0) && self.line_at(self.row_of(k.0)).dom().contains(k.1),
            |k: (Key, Key)| self.line_at(self.row_of(k.0))[k.1],
        )
    }

    /// The group that the cache holds for each known key.
    pub open spec fn groups(&self) -> Map<Key, Seq<Key>> {
        Map::new(|k: Key| self.has_row(k), |k: Key| self.group_at(self.row_of(k)))
    }

    /// A cache is well formed when its representation is sound and its
    /// relation is closed.
    pub open spec fn wf(&self) -> bool {
        self.inv() && closed(self@)
    }

    /// The cells of the row at `i`, in stored order.
    pub closed spec fn cells_at(&self, i: int) -> Seq<(Key, CompareResult)> {
        self.rows@[i].line.cells()
    }

    /// The results of a row are the map of its cells, and no key has two cells.
    pub proof fn lemma_line(&self, i: int)
        requires
            self.inv(),
            0 <= i < self.height(),
        ensures
            self.line_at(i) == map_of(self.cells_at(i)),
            distinct_keys(self.cells_at(i)),
    {
        assert(self.rows@[i].line.wf());
    }

    /// No two rows have the same key.
    pub proof fn lemma_rows_distinct(&self, i: int, j: int)
        requires
            self.inv(),
            0 <= i < self.height(),
            0 <= j < self.height(),
            i != j,
        ensures
            self.key_at(i) != self.key_at(j),
    {
    }

    /// With the invariant a key names its row.
    pub proof fn lemma_row(&self, i: int)
        requires
            self.inv(),
            0 <= i < self.height(),
        ensures
            self.has_row(self.key_at(i)),
            self.row_of(self.key_at(i)) == i,
            self.group_at(i).len() > 0,
            self.key_at(i) == self.group_at(i)[0],
    {
    }

    /// The stored cell of a row, through the row's index.
    pub proof fn lemma_cell(&self, i: int, y: Key)
        requires
            self.inv(),
            0 <= i < self.height(),
        ensures
            stored(self@, self.key_at(i), y) == self.line_at(i).dom().contains(y),
            stored(self@, self.key_at(i), y) ==> self@[(self.key_at(i), y)] == self.line_at(i)[y],
    {
        self.lemma_row(i);
        let k = (self.key_at(i), y);
        assert(k.0 == self.key_at(i) && k.1 == y);
    }

    /// An empty cache.
    pub fn new() -> (m: Matrix)
        ensures
            m.wf(),
            m.height() == 0,
            m@ == Map::<(Key, Key), CompareResult>::empty(),
            m.groups() == Map::<Key, Seq<Key>>::empty(),
    {
        let m = Matrix { rows: Vec::new() };
        assert(m@ =~= Map::<(Key, Key), CompareResult>::empty());
        assert(m.groups() =~= Map::<Key, Seq<Key>>::empty());
        m
    }

    /// The number of rows.
    pub fn rows_len(&self) -> (n: usize)
        ensures
            n == self.height(),
    {
        self.rows.len()
    }

    /// The group of the row at `i`.
    pub fn row_group(&self, i: usize) -> (g: &OrdPaths)
        requires
            self.inv(),
            i < self.height(),
        ensures
            g@ == self.group_at(i as int),
            g.wf(),
            g.key() == self.key_at(i as int),
    {
        &self.rows[i].group
    }

    /// The results of the row at `i`.
    pub fn row_line(&self, i: usize) -> (l: &Line)
        requires
            self.inv(),
            i < self.height(),
        ensures
            l.wf(),
            l.cells() == self.cells_at(i as int),
            l@ == self.line_at(i as int),
    {
        &self.rows[i].line
    }

    /// Adds a row for a key that has none.
    pub fn push_row(&mut self, group: OrdPaths, line: Line)
        requires
            old(self).inv(),
            group.wf(),
            line.wf(),
            !old(self).has_row(group.key()),
        ensures
            final(self).inv(),
            final(self).height() == old(self).height() + 1,
            final(self).key_at(old(self).height()) == group.key(),
            final(self).group_at(old(self).height()) == group@,
            final(self).cells_at(old(self).height()) == line.cells(),
            forall|i: int|
                0 <= i < old(self).height() ==> #[trigger] final(self).key_at(i)
                    == old(self).key_at(i) && final(self).group_at(i) == old(self).group_at(i)
                    && final(self).cells_at(i) == old(self).cells_at(i),
    {
        let ghost before = *self;
        self.rows.push(Row { group, line });
        proof {
            let n = before.height();
            assert forall|i: int| 0 <= i < n implies #[trigger] self.key_at(i) == before.key_at(
                i,
            ) && self.group_at(i) == before.group_at(i) && self.cells_at(i) == before.cells_at(
                i,
            ) by {
                assert(self.rows@[i] == before.rows@[i]);
            }
            assert forall|i: int| 0 <= i < self.height()
                implies (#[trigger] self.rows@[i]).group.wf()
                && self.rows@[i].line.wf() by {
                if i < n {
                    assert(self.rows@[i] == before.rows@[i]);
                }
            }
            assert forall|i: int, j: int|
                0 <= i < self.height() && 0 <= j < self.height() && i != j
                    implies #[trigger] self.key_at(
                i,
            ) != #[trigger] self.key_at(j) by {
                if i < n {
                    assert(before.key_at(i) == self.key_at(i));
                }
                if j < n {
                    assert(before.key_at(j) == self.key_at(j));
                }
            }
        }
    }

    /// Where the row of `key` stands, if there is one.
    pub fn row_position(&self, key: &String) -> (r: Option<usize>)
        requires
            self.inv(),
        ensures
            match r {
                Some(i) => i < self.height() && self.key_at(i as int) == key@ && self.row_of(key@)
                    == i && self.has_row(key@),
                None => !self.has_row(key@),
            },
    {
        let mut i: usize = 0;
        while i < self.rows.len()
            invariant
                self.inv(),
                i <= self.height(),
                forall|j: int| 0 <= j < i ==> #[trigger] self.key_at(j) != key@,
            decreases self.height() - i,
        {
            if *self.rows[i].group.canonical_key() == *key {
                proof {
                    self.lemma_row(i as int);
                }
                return Some(i);
            }
            i += 1;
        }
        None
    }

    /// The stored result for `(a, b)`, without the rule for equal keys.
    pub fn raw(&self, a: &String, b: &String) -> (r: Option<CompareResult>)
        requires
            self.inv(),
        ensures
            r == cell(self@, a@, b@),
    {
        match self.row_position(a) {
            Some(i) => {
                proof {
                    self.lemma_cell(i as int, b@);
                }
                self.rows[i].line.get(b)
            },
            None => None,
        }
    }

    /// What the cache knows about the pair: a tie for equal keys, else the
    /// stored result, else nothing.
    pub fn get(&self, p1: &OrdPaths, p2: &OrdPaths) -> (r: Option<CompareResult>)
        requires
            self.wf(),
            p1.wf(),
            p2.wf(),
        ensures
            r == lookup(self@, p1.key(), p2.key()),
    {
        if *p1.canonical_key() == *p2.canonical_key() {
            return Some(CompareResult::Same);
        }
        self.raw(p1.canonical_key(), p2.canonical_key())
    }

    /// The group that the cache holds for the key `p`, if it knows the key.
    pub fn get_paths(&self, p: &String) -> (r: Option<OrdPaths>)
        requires
            self.wf(),
        ensures
            match r {
                Some(g) => self.groups().dom().contains(p@) && g@ == self.groups()[p@] && g.wf()
                    && g.key() == p@,
                None => !self.groups().dom().contains(p@),
            },
    {
        match self.row_position(p) {
            Some(i) => {
                proof {
                    self.lemma_row(i as int);
                }
                Some(self.rows[i].group.clone())
            },
            None => None,
        }
    }

    /// Adds an empty row for the group `g` unless its key has a row.
    fn ensure_row(&mut self, g: &OrdPaths)
        requires
            old(self).inv(),
            g.wf(),
        ensures
            final(self).inv(),
            final(self)@ == old(self)@,
            final(self).has_row(g.key()),
            final(self).groups() == (if old(self).has_row(g.key()) {
                old(self).groups()
            } else {
                old(self).groups().insert(g.key(), g@)
            }),
            forall|k: Key| old(self).has_row(k) ==> final(self).has_row(k),
    {
        if let Some(_i) = self.row_position(g.canonical_key()) {
            return ;
        }
        let ghost before = *self;
        let row = Row { group: g.clone(), line: Line::new() };
        self.rows.push(row);
        proof {
            let n = before.height();
            assert(self.height() == n + 1);
            assert(self.key_at(n) == g.key());
            assert forall|i: int| 0 <= i < n implies #[trigger] self.key_at(i) == before.key_at(
                i,
            ) && self.line_at(i) == before.line_at(i) && self.group_at(i) == before.group_at(i) by {
                assert(self.rows@[i] == before.rows@[i]);
            }
            assert(self.inv()) by {
                assert forall|i: int| 0 <= i < self.height()
                    implies (#[trigger] self.rows@[i]).group.wf()
                    && self.rows@[i].line.wf() by {
                    if i < n {
                        assert(self.rows@[i] == before.rows@[i]);
                    }
                }
                assert forall|i: int, j: int|
                    0 <= i < self.height() && 0 <= j < self.height() && i != j
                        implies #[trigger] self.key_at(
                    i,
                ) != #[trigger] self.key_at(j) by {
                    if i < n {
                        assert(before.key_at(i) == self.key_at(i));
                    }
                    if j < n {
                        assert(before.key_at(j) == self.key_at(j));
                    }
                }
            }
            assert forall|k: Key| self.has_row(k) == (before.has_row(k) || k == g.key()) by {
                if before.has_row(k) {
                    let i = before.row_of(k);
                    assert(self.key_at(i) == k);
                }
                if self.has_row(k) && k != g.key() {
                    let i = self.row_of(k);
                    assert(before.key_at(i) == k);
                }
            }
            assert forall|k: Key| before.has_row(k) implies self.row_of(k) == before.row_of(k) by {
                let i = before.row_of(k);
                assert(self.key_at(i) == k);
                self.lemma_row(i);
            }
            self.lemma_row(n);
            assert(self.line_at(n) == Map::<Key, CompareResult>::empty());
            assert(self@ =~= before@);
            assert(self.groups() =~= before.groups().insert(g.key(), g@));
        }
    }

    /// Stores `value` for the pair of the key of row `i` and `key`.
    fn set_cell(&mut self, i: usize, key: &String, value: CompareResult)
        requires
            old(self).inv(),
            i < old(self).height(),
        ensures
            final(self).inv(),
            final(self)@ == old(self)@.insert((old(self).key_at(i as int), key@), value),
            final(self).groups() == old(self).groups(),
            final(self).height() == old(self).height(),
            forall|j: int|
                0 <= j < old(self).height() ==> #[trigger] final(self).key_at(j)
                    == old(self).key_at(j),
            forall|k: Key| final(self).has_row(k) == old(self).has_row(k),
    {
        let ghost before = *self;
        self.rows[i].line.set(key, value);
        proof {
            let n = before.height();
            assert(self.height() == n);
            assert forall|j: int| 0 <= j < n implies #[trigger] self.key_at(j) == before.key_at(j)
                && self.group_at(j) == before.group_at(j) && (j != i ==> self.line_at(j)
                == before.line_at(j)) by {
                if j != i {
                    assert(self.rows@[j] == before.rows@[j]);
                }
            }
            assert(self.line_at(i as int) == before.line_at(i as int).insert(key@, value));
            assert(self.inv()) by {
                assert forall|j: int| 0 <= j < self.height()
                    implies (#[trigger] self.rows@[j]).group.wf()
                    && self.rows@[j].line.wf() by {
                    if j != i {
                        assert(self.rows@[j] == before.rows@[j]);
                    }
                }
                assert forall|j: int, l: int|
                    0 <= j < self.height() && 0 <= l < self.height() && j != l
                        implies #[trigger] self.key_at(
                    j,
                ) != #[trigger] self.key_at(l) by {
                    assert(before.key_at(j) == self.key_at(j));
                    assert(before.key_at(l) == self.key_at(l));
                }
            }
            assert forall|k: Key| self.has_row(k) == before.has_row(k) by {
                if before.has_row(k) {
                    let j = before.row_of(k);
                    assert(self.key_at(j) == k);
                }
                if self.has_row(k) {
                    let j = self.row_of(k);
                    assert(before.key_at(j) == k);
                }
            }
            assert forall|k: Key| before.has_row(k) implies self.row_of(k) == before.row_of(k) by {
                let j = before.row_of(k);
                assert(self.key_at(j) == k);
                self.lemma_row(j);
            }
            before.lemma_row(i as int);
            assert(self@ =~= before@.insert((before.key_at(i as int), key@), value));
            assert(self.groups() =~= before.groups());
        }
    }

    /// The keys tied to `a`, first `a` itself.
    fn class_of(&self, a: &String) -> (out: Vec<String>)
        requires
            self.inv(),
        ensures
            forall|x: Key| listed(out@, x) == tied(self@, a@, x),
            out@.len() > 0,
            out@[0]@ == a@,
    {
        let mut out: Vec<String> = Vec::new();
        out.push(a.clone());
        assert(out@[0]@ == a@);
        match self.row_position(a) {
            Some(i) => {
                let line = &self.rows[i].line;
                let n = line.len();
                let mut j: usize = 0;
                while j < n
                    invariant
                        self.inv(),
                        i < self.height(),
                        self.key_at(i as int) == a@,
                        line == &self.rows@[i as int].line,
                        n == line.cells().len(),
                        j <= n,
                        out@.len() > 0,
                        out@[0]@ == a@,
                        forall|x: Key|
                            listed(out@, x) == (x == a@ || exists|l: int|
                                0 <= l < j && (#[trigger] line.cells()[l]).0 == x
                                    && line.cells()[l].1 == CompareResult::Same),
                    decreases n - j,
                {
                    let ghost prev = out@;
                    if line.value_at(j) == CompareResult::Same {
                        out.push(line.key_at(j).clone());
                        assert forall|x: Key|
                            listed(out@, x) == (x == a@ || exists|l: int|
                                0 <= l < j + 1 && (#[trigger] line.cells()[l]).0 == x
                                    && line.cells()[l].1 == CompareResult::Same) by {
                            let c = line.cells();
                            if listed(out@, x) {
                                let w = choose|w: int| 0 <= w < out@.len()
                                    && (#[trigger] out@[w])@ == x;
                                if w < prev.len() {
                                    assert(prev[w]@ == x);
                                    assert(listed(prev, x));
                                } else {
                                    assert(c[j as int].0 == x);
                                }
                            }
                            if listed(prev, x) {
                                let w = choose|w: int| 0 <= w < prev.len()
                                    && (#[trigger] prev[w])@ == x;
                                assert(out@[w]@ == x);
                            }
                            if c[j as int].0 == x {
                                assert(out@[prev.len() as int]@ == x);
                            }
                        }
                    }
                    j += 1;
                }
                proof {
                    let c = line.cells();
                    assert forall|x: Key| listed(out@, x) == tied(self@, a@, x) by {
                        self.lemma_cell(i as int, x);
                        if x != a@ {
                            if self.line_at(i as int).dom().contains(x) {
                                let l = index_of(c, x);
                                lemma_cell_in_map(c, l);
                            }
                            if exists|l: int|
                                0 <= l < n && (#[trigger] c[l]).0 == x && c[l].1
                                    == CompareResult::Same {
                                let l = choose|l: int|
                                    0 <= l < n && (#[trigger] c[l]).0 == x && c[l].1
                                        == CompareResult::Same;
                                lemma_cell_in_map(c, l);
                            }
                        }
                    }
                }
            },
            None => {
                proof {
                    assert forall|x: Key| listed(out@, x) == tied(self@, a@, x) by {
                        if listed(out@, x) {
                            let w = choose|w: int| 0 <= w < out@.len() && (#[trigger] out@[w])@
                                == x;
                            assert(w == 0);
                        }
                    }
                }
            },
        }
        out
    }

    /// Writes, for every `x` of `xs` and every cell `(y, v)` of `ys` with
    /// another key, `v` for `(x, y)` and its reverse for `(y, x)`. The caller
    /// names the relation `t` that all these writes agree with.
    fn assign_block(
        &mut self,
        xs: &Vec<String>,
        ys: &Vec<(String, CompareResult)>,
        Ghost(t): Ghost<Relation>,
    )
        requires
            old(self).inv(),
            forall|i: int| 0 <= i < xs@.len() ==> old(self).has_row((#[trigger] xs@[i])@),
            forall|j: int| 0 <= j < ys@.len() ==> old(self).has_row((#[trigger] ys@[j]).0@),
            forall|i: int, j: int, p: Key, q: Key|
                0 <= i < xs@.len() && 0 <= j < ys@.len() && #[trigger] hit(xs@, ys@, i, j, p, q)
                    ==> cell(t, p, q) == Some(
                    if xs@[i]@ == p {
                        ys@[j].1
                    } else {
                        ys@[j].1.reversed()
                    },
                ),
        ensures
            final(self).inv(),
            final(self).groups() == old(self).groups(),
            forall|k: Key| final(self).has_row(k) == old(self).has_row(k),
            forall|p: Key, q: Key|
                cell(final(self)@, p, q) == (if covered(xs@, ys@, p, q) {
                    cell(t, p, q)
                } else {
                    cell(old(self)@, p, q)
                }),
    {
        let ghost before = *self;
        let mut i: usize = 0;
        while i < xs.len()
            invariant
                self.inv(),
                i <= xs@.len(),
                self.groups() == before.groups(),
                forall|k: Key| self.has_row(k) == before.has_row(k),
                forall|i: int| 0 <= i < xs@.len() ==> before.has_row((#[trigger] xs@[i])@),
                forall|j: int| 0 <= j < ys@.len() ==> before.has_row((#[trigger] ys@[j]).0@),
                forall|i: int, j: int, p: Key, q: Key|
                    0 <= i < xs@.len() && 0 <= j < ys@.len() && #[trigger] hit(
                        xs@,
                        ys@,
                        i,
                        j,
                        p,
                        q,
                    ) ==> cell(t, p, q) == Some(
                        if xs@[i]@ == p {
                            ys@[j].1
                        } else {
                            ys@[j].1.reversed()
                        },
                    ),
                forall|p: Key, q: Key|
                    cell(self@, p, q) == (if covered_before(xs@, ys@, i as int, 0, p, q) {
                        cell(t, p, q)
                    } else {
                        cell(before@, p, q)
                    }),
            decreases xs@.len() - i,
        {
            let x = &xs[i];
            let mut j: usize = 0;
            while j < ys.len()
                invariant
                    self.inv(),
                    i < xs@.len(),
                    j <= ys@.len(),
                    x == &xs@[i as int],
                    self.groups() == before.groups(),
                    forall|k: Key| self.has_row(k) == before.has_row(k),
                    forall|i: int| 0 <= i < xs@.len() ==> before.has_row((#[trigger] xs@[i])@),
                    forall|j: int| 0 <= j < ys@.len() ==> before.has_row((#[trigger] ys@[j]).0@),
                    forall|i: int, j: int, p: Key, q: Key|
                        0 <= i < xs@.len() && 0 <= j < ys@.len() && #[trigger] hit(
                            xs@,
                            ys@,
                            i,
                            j,
                            p,
                            q,
                        ) ==> cell(t, p, q) == Some(
                            if xs@[i]@ == p {
                                ys@[j].1
                            } else {
                                ys@[j].1.reversed()
                            },
                        ),
                    forall|p: Key, q: Key|
                        cell(self@, p, q)
                            == (if covered_before(xs@, ys@, i as int, j as int, p, q) {
                            cell(t, p, q)
                        } else {
                            cell(before@, p, q)
                        }),
                decreases ys@.len() - j,
            {
                let y = &ys[j].0;
                let v = ys[j].1;
                let ghost cur = *self;
                if *x != *y {
                    assert(before.has_row(xs@[i as int]@));
                    assert(before.has_row(ys@[j as int].0@));
                    let rx = self.row_position(x);
                    self.set_cell(rx.unwrap(), y, v);
                    let ry = self.row_position(y);
                    self.set_cell(ry.unwrap(), x, v.reverse());
                    assert(self@ == cur@.insert((x@, y@), v).insert((y@, x@), v.reversed()));
                }
                proof {
                    assert forall|p: Key, q: Key|
                        cell(self@, p, q) == (if covered_before(
                            xs@,
                            ys@,
                            i as int,
                            j as int + 1,
                            p,
                            q,
                        ) {
                            cell(t, p, q)
                        } else {
                            cell(before@, p, q)
                        }) by {
                        let h = hit(xs@, ys@, i as int, j as int, p, q);
                        assert(covered_before(xs@, ys@, i as int, j as int + 1, p, q) == (
                        covered_before(xs@, ys@, i as int, j as int, p, q) || h)) by {
                            if covered_before(xs@, ys@, i as int, j as int + 1, p, q) {
                                let (a, b) = choose|a: int, b: int|
                                    0 <= a < xs@.len() && 0 <= b < ys@.len() && (a < i || (a == i
                                        && b < j + 1)) && #[trigger] hit(xs@, ys@, a, b, p, q);
                                if !(a == i && b == j) {
                                    assert(hit(xs@, ys@, a, b, p, q));
                                }
                            }
                            if covered_before(xs@, ys@, i as int, j as int, p, q) {
                                let (a, b) = choose|a: int, b: int|
                                    0 <= a < xs@.len() && 0 <= b < ys@.len() && (a < i || (a == i
                                        && b < j)) && #[trigger] hit(xs@, ys@, a, b, p, q);
                                assert(hit(xs@, ys@, a, b, p, q));
                            }
                            if h {
                                assert(hit(xs@, ys@, i as int, j as int, p, q));
                            }
                        }
                        assert(x@ == xs@[i as int]@ && y@ == ys@[j as int].0@ && v
                            == ys@[j as int].1);
                        if h {
                            assert(cell(t, p, q) == Some(
                                if xs@[i as int]@ == p {
                                    ys@[j as int].1
                                } else {
                                    ys@[j as int].1.reversed()
                                },
                            ));
                            assert(x@ != y@);
                            if xs@[i as int]@ == p {
                                assert((p, q) == (x@, y@));
                                assert((p, q) != (y@, x@));
                                assert(stored(self@, p, q) && self@[(p, q)] == v);
                            } else {
                                assert((p, q) == (y@, x@));
                                assert(stored(self@, p, q) && self@[(p, q)] == v.reversed());
                            }
                        } else {
                            if x@ != y@ {
                                assert((p, q) != (x@, y@));
                                assert((p, q) != (y@, x@));
                                assert(stored(self@, p, q) == stored(cur@, p, q));
                            }
                            assert(cell(self@, p, q) == cell(cur@, p, q));
                        }
                    }
                }
                j += 1;
            }
            proof {
                assert forall|p: Key, q: Key|
                    covered_before(xs@, ys@, i as int + 1, 0, p, q) == covered_before(
                        xs@,
                        ys@,
                        i as int,
                        ys@.len() as int,
                        p,
                        q,
                    ) by {
                    if covered_before(xs@, ys@, i as int + 1, 0, p, q) {
                        let (a, b) = choose|a: int, b: int|
                            0 <= a < xs@.len() && 0 <= b < ys@.len() && (a < i + 1 || (a == i + 1
                                && b < 0)) && #[trigger] hit(xs@, ys@, a, b, p, q);
                        assert(hit(xs@, ys@, a, b, p, q));
                    }
                    if covered_before(xs@, ys@, i as int, ys@.len() as int, p, q) {
                        let (a, b) = choose|a: int, b: int|
                            0 <= a < xs@.len() && 0 <= b < ys@.len() && (a < i || (a == i && b
                                < ys@.len())) && #[trigger] hit(xs@, ys@, a, b, p, q);
                        assert(hit(xs@, ys@, a, b, p, q));
                    }
                }
            }
            i += 1;
        }
    }

    /// The cells of the row of `a` whose keys neither `k1` nor `k2` lists.
    fn row_cells_outside(
        &self,
        a: &String,
        k1: &Vec<String>,
        k2: &Vec<(String, CompareResult)>,
    ) -> (out: Vec<(String, CompareResult)>)
        requires
            self.inv(),
        ensures
            forall|j: int|
                0 <= j < out@.len() ==> !listed(k1@, (#[trigger] out@[j]).0@) && !listed_cell(
                    k2@,
                    out@[j].0@,
                ) && cell(self@, a@, out@[j].0@) == Some(out@[j].1),
            forall|z: Key|
                stored(self@, a@, z) && !listed(k1@, z) && !listed_cell(k2@, z) ==> listed_cell(
                    out@,
                    z,
                ),
    {
        let mut out: Vec<(String, CompareResult)> = Vec::new();
        match self.row_position(a) {
            Some(i) => {
                let line = &self.rows[i].line;
                let n = line.len();
                let mut j: usize = 0;
                while j < n
                    invariant
                        self.inv(),
                        i < self.height(),
                        self.key_at(i as int) == a@,
                        line == &self.rows@[i as int].line,
                        n == line.cells().len(),
                        j <= n,
                        forall|l: int|
                            0 <= l < out@.len() ==> !listed(k1@, (#[trigger] out@[l]).0@)
                                && !listed_cell(k2@, out@[l].0@) && cell(self@, a@, out@[l].0@)
                                == Some(out@[l].1),
                        forall|l: int|
                            0 <= l < j && !listed(k1@, (#[trigger] line.cells()[l]).0)
                                && !listed_cell(k2@, line.cells()[l].0) ==> listed_cell(
                                out@,
                                line.cells()[l].0,
                            ),
                    decreases n - j,
                {
                    let z = line.key_at(j);
                    let w = line.value_at(j);
                    let ghost prev = out@;
                    if !list_has(k1, z) && !cells_have(k2, z) {
                        out.push((z.clone(), w));
                        proof {
                            let c = line.cells();
                            lemma_cell_in_map(c, j as int);
                            self.lemma_cell(i as int, z@);
                            assert(out@[prev.len() as int].0@ == z@);
                            assert forall|l: int|
                                0 <= l < j + 1 && !listed(k1@, (#[trigger] c[l]).0) && !listed_cell(
                                    k2@,
                                    c[l].0,
                                ) implies listed_cell(out@, c[l].0) by {
                                if l < j {
                                    let u = choose|u: int|
                                        0 <= u < prev.len() && (#[trigger] prev[u]).0@ == c[l].0;
                                    assert(out@[u].0@ == c[l].0);
                                }
                            }
                        }
                    }
                    j += 1;
                }
                proof {
                    let c = line.cells();
                    assert forall|z: Key|
                        stored(self@, a@, z) && !listed(k1@, z) && !listed_cell(
                            k2@,
                            z,
                        ) implies listed_cell(out@, z) by {
                        self.lemma_cell(i as int, z);
                        let l = index_of(c, z);
                        assert(c[l].0 == z);
                    }
                }
            },
            None => {},
        }
        out
    }

    /// Appends the group of the row of `a` to the group of the row of `b`
    /// and leaves `a` with a group of itself alone.
    fn merge_groups(&mut self, ia: usize, ib: usize)
        requires
            old(self).inv(),
            ia < old(self).height(),
            ib < old(self).height(),
            ia != ib,
        ensures
            final(self).inv(),
            final(self)@ == old(self)@,
            final(self).groups() == old(self).groups().insert(
                old(self).key_at(ib as int),
                old(self).group_at(ib as int) + old(self).group_at(ia as int),
            ).insert(old(self).key_at(ia as int), seq![old(self).key_at(ia as int)]),
    {
        let ghost before = *self;
        let mut moved = self.rows[ia].group.clone();
        self.rows[ib].group.extend(&mut moved);
        self.rows[ia].group = moved;
        proof {
            let n = before.height();
            assert(self.height() == n);
            before.lemma_row(ia as int);
            before.lemma_row(ib as int);
            assert(self.group_at(ib as int) == before.group_at(ib as int) + before.group_at(
                ia as int,
            ));
            assert(self.group_at(ia as int) == seq![before.key_at(ia as int)]);
            assert forall|j: int| 0 <= j < n implies #[trigger] self.key_at(j) == before.key_at(j)
                && self.line_at(j) == before.line_at(j) && (j != ia && j != ib ==> self.group_at(j)
                == before.group_at(j)) by {
                if j != ia && j != ib {
                    assert(self.rows@[j] == before.rows@[j]);
                }
            }
            assert(self.inv()) by {
                assert forall|j: int| 0 <= j < self.height()
                    implies (#[trigger] self.rows@[j]).group.wf()
                    && self.rows@[j].line.wf() by {
                    if j != ia && j != ib {
                        assert(self.rows@[j] == before.rows@[j]);
                    }
                }
                assert forall|j: int, l: int|
                    0 <= j < self.height() && 0 <= l < self.height() && j != l
                        implies #[trigger] self.key_at(
                    j,
                ) != #[trigger] self.key_at(l) by {
                    assert(before.key_at(j) == self.key_at(j));
                    assert(before.key_at(l) == self.key_at(l));
                }
            }
            assert forall|k: Key| self.has_row(k) == before.has_row(k) by {
                if before.has_row(k) {
                    let j = before.row_of(k);
                    assert(self.key_at(j) == k);
                }
                if self.has_row(k) {
                    let j = self.row_of(k);
                    assert(before.key_at(j) == k);
                }
            }
            assert forall|k: Key| before.has_row(k) implies self.row_of(k) == before.row_of(k) by {
                let j = before.row_of(k);
                assert(self.key_at(j) == k);
                self.lemma_row(j);
            }
            assert(self@ =~= before@);
            assert(self.groups() =~= before.groups().insert(
                before.key_at(ib as int),
                before.group_at(ib as int) + before.group_at(ia as int),
            ).insert(before.key_at(ia as int), seq![before.key_at(ia as int)]));
        }
    }

    /// Takes the key `key` out of every row.
    fn remove_column(&mut self, key: &String)
        requires
            old(self).inv(),
        ensures
            final(self).inv(),
            final(self).height() == old(self).height(),
            final(self).groups() == old(self).groups(),
            forall|i: int|
                0 <= i < old(self).height() ==> #[trigger] final(self).key_at(i)
                    == old(self).key_at(i) && final(self).group_at(i) == old(self).group_at(i)
                    && final(self).line_at(i) == old(self).line_at(i).remove(key@),
    {
        let ghost before = *self;
        let n = self.rows.len();
        let mut i: usize = 0;
        while i < n
            invariant
                self.inv(),
                n == self.height(),
                n == before.height(),
                i <= n,
                forall|l: int| 0 <= l < n ==> #[trigger] self.key_at(l) == before.key_at(l),
                forall|l: int| 0 <= l < n ==> #[trigger] self.group_at(l) == before.group_at(l),
                forall|l: int|
                    0 <= l < n ==> #[trigger] self.line_at(l) == (if l < i {
                        before.line_at(l).remove(key@)
                    } else {
                        before.line_at(l)
                    }),
            decreases n - i,
        {
            let ghost cur = *self;
            self.rows[i].line.remove(key);
            proof {
                assert forall|l: int| 0 <= l < n implies #[trigger] self.key_at(l) == cur.key_at(l)
                    && self.group_at(l) == cur.group_at(l) && (l != i ==> self.line_at(l)
                    == cur.line_at(l)) by {
                    if l != i {
                        assert(self.rows@[l] == cur.rows@[l]);
                    }
                }
                assert(self.inv()) by {
                    assert forall|l: int| 0 <= l < self.height() implies (
                    #[trigger] self.rows@[l]).group.wf() && self.rows@[l].line.wf() by {
                        if l != i {
                            assert(self.rows@[l] == cur.rows@[l]);
                        }
                    }
                    assert forall|j: int, l: int|
                        0 <= j < self.height() && 0 <= l < self.height() && j != l
                            implies #[trigger] self.key_at(
                        j,
                    ) != #[trigger] self.key_at(l) by {
                        assert(cur.key_at(j) == self.key_at(j));
                        assert(cur.key_at(l) == self.key_at(l));
                    }
                }
                assert forall|l: int| 0 <= l < n implies #[trigger] self.key_at(l)
                    == before.key_at(l) by {
                    assert(cur.key_at(l) == before.key_at(l));
                }
                assert forall|l: int| 0 <= l < n implies #[trigger] self.group_at(l)
                    == before.group_at(l) by {
                    assert(self.key_at(l) == cur.key_at(l));
                    assert(cur.group_at(l) == before.group_at(l));
                }
                assert forall|l: int| 0 <= l < n implies #[trigger] self.line_at(l) == (if l < i
                    + 1 {
                    before.line_at(l).remove(key@)
                } else {
                    before.line_at(l)
                }) by {
                    assert(self.key_at(l) == cur.key_at(l));
                    let prior = cur.line_at(l);
                    if l == i {
                        assert(self.line_at(l) == prior.remove(key@));
                    }
                }
            }
            i += 1;
        }
        proof {
            assert forall|k: Key| self.has_row(k) == before.has_row(k) by {
                if before.has_row(k) {
                    let j = before.row_of(k);
                    assert(self.key_at(j) == k);
                }
                if self.has_row(k) {
                    let j = self.row_of(k);
                    assert(before.key_at(j) == k);
                }
            }
            assert forall|k: Key| before.has_row(k) implies self.row_of(k) == before.row_of(k) by {
                let j = before.row_of(k);
                assert(self.key_at(j) == k);
                self.lemma_row(j);
            }
            assert forall|k: Key| before.has_row(k) implies self.group_at(self.row_of(k))
                == before.group_at(before.row_of(k)) by {
                let j = before.row_of(k);
                assert(self.group_at(j) == before.group_at(j));
            }
            assert(self.groups() =~= before.groups());
            assert forall|l: int| 0 <= l < before.height() implies #[trigger] self.key_at(l)
                == before.key_at(l) && self.group_at(l) == before.group_at(l) && self.line_at(l)
                == before.line_at(l).remove(key@) by {
                assert(self.group_at(l) == before.group_at(l));
                assert(self.line_at(l) == before.line_at(l).remove(key@));
            }
        }
    }

    /// Removes the row and the column of the group's key, and with them the
    /// group that the cache held for it.
    pub fn remove(&mut self, p: &OrdPaths)
        requires
            old(self).wf(),
            p.wf(),
        ensures
            final(self).wf(),
            final(self)@ == removed(old(self)@, p.key()),
            final(self).groups() == old(self).groups().remove(p.key()),
    {
        let key = p.canonical_key();
        let ghost before = *self;
        proof {
            lemma_removed_closed(before@, key@);
        }
        self.remove_column(key);
        let ghost mid = *self;
        proof {
            assert forall|k: Key| mid.has_row(k) == before.has_row(k) by {
                if before.has_row(k) {
                    let j = before.row_of(k);
                    assert(mid.key_at(j) == k);
                }
                if mid.has_row(k) {
                    let j = mid.row_of(k);
                    assert(before.key_at(j) == k);
                }
            }
            assert forall|k: Key| before.has_row(k) implies mid.row_of(k) == before.row_of(k) by {
                let j = before.row_of(k);
                assert(mid.key_at(j) == k);
                mid.lemma_row(j);
            }
            assert forall|x: Key, y: Key|
                cell(mid@, x, y) == (if y == key@ {
                    None
                } else {
                    cell(before@, x, y)
                }) by {
                if before.has_row(x) {
                    let j = before.row_of(x);
                    assert(mid.key_at(j) == before.key_at(j));
                    before.lemma_cell(j, y);
                    mid.lemma_cell(j, y);
                }
            }
        }
        match self.row_position(key) {
            Some(i) => {
                self.rows.remove(i);
                proof {
                    let n = mid.height();
                    assert(self.height() == n - 1);
                    assert forall|l: int| 0 <= l < n - 1 implies #[trigger] self.key_at(l) == (if l
                        < i {
                        mid.key_at(l)
                    } else {
                        mid.key_at(l + 1)
                    }) && self.group_at(l) == (if l < i {
                        mid.group_at(l)
                    } else {
                        mid.group_at(l + 1)
                    }) && self.line_at(l) == (if l < i {
                        mid.line_at(l)
                    } else {
                        mid.line_at(l + 1)
                    }) by {
                        if l < i {
                            assert(self.rows@[l] == mid.rows@[l]);
                        } else {
                            assert(self.rows@[l] == mid.rows@[l + 1]);
                        }
                    }
                    assert(self.inv()) by {
                        assert forall|l: int| 0 <= l < self.height() implies (
                        #[trigger] self.rows@[l]).group.wf() && self.rows@[l].line.wf() by {
                            if l < i {
                                assert(self.rows@[l] == mid.rows@[l]);
                            } else {
                                assert(self.rows@[l] == mid.rows@[l + 1]);
                            }
                        }
                        assert forall|j: int, l: int|
                            0 <= j < self.height() && 0 <= l < self.height() && j != l
                                implies #[trigger] self.key_at(
                            j,
                        ) != #[trigger] self.key_at(l) by {
                            let oj = if j < i {
                                j
                            } else {
                                j + 1
                            };
                            let ol = if l < i {
                                l
                            } else {
                                l + 1
                            };
                            assert(mid.key_at(oj) != mid.key_at(ol));
                        }
                    }
                    assert forall|k: Key| self.has_row(k) == (mid.has_row(k) && k != key@) by {
                        if mid.has_row(k) && k != key@ {
                            let j = mid.row_of(k);
                            if j < i {
                                assert(self.key_at(j) == k);
                            } else {
                                assert(self.key_at(j - 1) == k);
                            }
                        }
                        if self.has_row(k) {
                            let j = self.row_of(k);
                            let oj = if j < i {
                                j
                            } else {
                                j + 1
                            };
                            assert(mid.key_at(oj) == k);
                            assert(mid.key_at(oj) != mid.key_at(i as int));
                        }
                    }
                    assert forall|k: Key| self.has_row(k) implies self.line_at(self.row_of(k))
                        == mid.line_at(mid.row_of(k)) && self.group_at(self.row_of(k))
                        == mid.group_at(mid.row_of(k)) by {
                        let j = self.row_of(k);
                        let oj = if j < i {
                            j
                        } else {
                            j + 1
                        };
                        assert(mid.key_at(oj) == k);
                        mid.lemma_row(oj);
                    }
                    assert forall|x: Key, y: Key|
                        cell(self@, x, y) == cell(removed(before@, key@), x, y) by {
                        let k = (x, y);
                        assert(k.0 == x && k.1 == y);
                    }
                    crate::relation::lemma_same_cells(self@, removed(before@, key@));
                    assert forall|k: Key| mid.has_row(k) implies mid.group_at(mid.row_of(k))
                        == before.group_at(before.row_of(k)) by {
                        assert(mid.groups()[k] == before.groups()[k]);
                    }
                    assert(self.groups() =~= before.groups().remove(key@));
                }
            },
            None => {
                proof {
                    assert forall|x: Key, y: Key|
                        cell(self@, x, y) == cell(removed(before@, key@), x, y) by {
                        let k = (x, y);
                        assert(k.0 == x && k.1 == y);
                    }
                    crate::relation::lemma_same_cells(self@, removed(before@, key@));
                    assert(self.groups() =~= before.groups().remove(key@));
                }
            },
        }
    }

    /// A stored pair has rows for both of its keys.
    proof fn lemma_stored_rows(&self, x: Key, y: Key)
        requires
            self.wf(),
            stored(self@, x, y),
        ensures
            self.has_row(x),
            self.has_row(y),
    {
        assert(stored(self@, y, x));
    }

    /// Stores `v` for the pair of the two groups' keys, with its mirror, and
    /// carries it over to the keys tied to either, so that the relation
    /// stays closed. A tie joins the two sides to one class and merges the
    /// first group into the second. Where the new result is against what was
    /// stored for the pair, the second key leaves its class. Equal keys
    /// change nothing, and so does a tie of keys that are tied.
    pub fn insert(&mut self, p1: &OrdPaths, p2: &OrdPaths, v: CompareResult)
        requires
            old(self).wf(),
            p1.wf(),
            p2.wf(),
        ensures
            final(self).wf(),
            final(self)@ == inserted(old(self)@, p1.key(), p2.key(), v),
            final(self).groups() == inserted_groups(
                old(self).groups(),
                old(self)@,
                p1@,
                p2@,
                v,
            ),
            p1.key() != p2.key() ==> lookup(final(self)@, p1.key(), p2.key()) == Some(v),
            p1.key() != p2.key() ==> lookup(final(self)@, p2.key(), p1.key()) == Some(
                v.reversed(),
            ),
    {
        let a = p1.canonical_key();
        let b = p2.canonical_key();
        let ghost r = self@;
        let ghost g = self.groups();
        let ghost t = inserted(r, a@, b@, v);
        proof {
            lemma_inserted_closed(r, a@, b@, v);
            law_insert_answers(r, a@, b@, v);
            assert forall|x: Key, y: Key| cell(t, x, y) == inserted_cell(r, a@, b@, v, x, y) by {
                lemma_inserted_cell(r, a@, b@, v, x, y);
            }
        }
        if *a == *b {
            assert(t =~= r);
            return ;
        }
        let ghost before = *self;
        self.ensure_row(p1);
        self.ensure_row(p2);
        let ghost g2 = self.groups();
        let ca = self.class_of(a);
        let cb = self.class_of(b);
        let tied_before = list_has(&ca, b);
        assert(self@ == r);
        assert(tied_before == tied(r, a@, b@));
        assert forall|x: Key| listed(ca@, x) == tied(r, a@, x) by {
            assert(listed(ca@, x) == tied(self@, a@, x));
        }
        assert forall|x: Key| listed(cb@, x) == tied(r, b@, x) by {
            assert(listed(cb@, x) == tied(self@, b@, x));
        }
        if tied_before && v == CompareResult::Same {
            proof {
                assert forall|x: Key, y: Key| cell(t, x, y) == cell(r, x, y) by {
                    if x != y {
                        lemma_tied_equivalence(r, a@, b@, x);
                        lemma_tied_equivalence(r, a@, b@, y);
                        lemma_tied_equivalence(r, b@, a@, x);
                        lemma_tied_equivalence(r, b@, a@, y);
                        lemma_tied_equivalence(r, x, a@, y);
                        lemma_tied_equivalence(r, a@, x, a@);
                        lemma_tied_equivalence(r, a@, y, a@);
                        assert(in_class(r, a@, b@, x) == tied(r, a@, x));
                        assert(in_class(r, a@, b@, y) == tied(r, a@, y));
                        if in_class(r, a@, b@, x) && !in_class(r, a@, b@, y) {
                            if x != a@ {
                                lemma_tied_rows_agree(r, a@, x, y);
                            }
                            lemma_tied_rows_agree(r, a@, b@, y);
                        }
                        if !in_class(r, a@, b@, x) && in_class(r, a@, b@, y) {
                            if y != a@ {
                                lemma_tied_rows_agree(r, a@, y, x);
                            }
                            lemma_tied_rows_agree(r, a@, b@, x);
                            if stored(r, a@, x) {
                                assert(stored(r, x, a@));
                            }
                            if stored(r, x, a@) {
                                assert(stored(r, a@, x));
                            }
                        }
                    }
                }
                lemma_same_cells(t, r);
                assert(g2 =~= inserted_groups(g, r, p1@, p2@, v));
            }
            return ;
        }
        // The second key takes its class along unless what is stored for
        // the pair is against the new result.
        let along = match self.raw(a, b) {
            None => true,
            Some(w) => (w == CompareResult::Same) == (v == CompareResult::Same),
        };
        assert(along == carried(r, a@, b@, v));
        let xs = dropped(&ca, b);
        let sb = if along {
            cb
        } else {
            let mut alone: Vec<String> = Vec::new();
            alone.push(b.clone());
            assert forall|y: Key| listed(alone@, y) == (y == b@) by {
                if listed(alone@, y) {
                    let w = choose|w: int| 0 <= w < alone@.len() && (#[trigger] alone@[w])@ == y;
                    assert(w == 0);
                }
                if y == b@ {
                    assert(alone@[0]@ == y);
                }
            }
            alone
        };
        proof {
            assert forall|x: Key| listed(xs@, x) == side_a(r, a@, b@, x) by {}
            assert forall|y: Key| listed(sb@, y) == side_b(r, a@, b@, v, y) by {}
            assert forall|i: int| 0 <= i < xs@.len() implies self.has_row((#[trigger] xs@[i])@) by {
                assert(listed(xs@, xs@[i]@));
                if xs@[i]@ != a@ {
                    self.lemma_stored_rows(a@, xs@[i]@);
                }
            }
            assert forall|i: int| 0 <= i < sb@.len() implies self.has_row((#[trigger] sb@[i])@) by {
                assert(listed(sb@, sb@[i]@));
                if sb@[i]@ != b@ {
                    self.lemma_stored_rows(b@, sb@[i]@);
                }
            }
        }
        if v != CompareResult::Same {
            let ys = with_value(&sb, v);
            proof {
                assert forall|j: int| 0 <= j < ys@.len() implies self.has_row(
                    (#[trigger] ys@[j]).0@,
                ) by {
                    assert(ys@[j].0@ == sb@[j]@);
                    assert(self.has_row(sb@[j]@));
                }
                assert forall|i: int, j: int, p: Key, q: Key|
                    0 <= i < xs@.len() && 0 <= j < ys@.len() && #[trigger] hit(
                        xs@,
                        ys@,
                        i,
                        j,
                        p,
                        q,
                    ) implies cell(t, p, q) == Some(
                    if xs@[i]@ == p {
                        ys@[j].1
                    } else {
                        ys@[j].1.reversed()
                    },
                ) by {
                    assert(listed(xs@, xs@[i]@));
                    assert(ys@[j].0@ == sb@[j]@);
                    assert(listed(sb@, sb@[j]@));
                    lemma_sides_apart(r, a@, b@, v, xs@[i]@);
                    lemma_sides_apart(r, a@, b@, v, sb@[j]@);
                }
            }
            self.assign_block(&xs, &ys, Ghost(t));
            proof {
                assert forall|p: Key, q: Key| cell(self@, p, q) == cell(t, p, q) by {
                    if !covered(xs@, ys@, p, q) {
                        if p != q && side_a(r, a@, b@, p) && side_b(r, a@, b@, v, q) {
                            assert(listed(xs@, p) && listed(sb@, q));
                            let i = choose|i: int| 0 <= i < xs@.len() && (#[trigger] xs@[i])@ == p;
                            let j = choose|j: int| 0 <= j < sb@.len() && (#[trigger] sb@[j])@ == q;
                            assert(ys@[j].0@ == q);
                            assert(hit(xs@, ys@, i, j, p, q));
                        }
                        if p != q && side_b(r, a@, b@, v, p) && side_a(r, a@, b@, q) {
                            assert(listed(xs@, q) && listed(sb@, p));
                            let i = choose|i: int| 0 <= i < xs@.len() && (#[trigger] xs@[i])@ == q;
                            let j = choose|j: int| 0 <= j < sb@.len() && (#[trigger] sb@[j])@ == p;
                            assert(ys@[j].0@ == p);
                            assert(hit(xs@, ys@, i, j, p, q));
                        }
                    }
                }
                lemma_same_cells(self@, t);
                assert(self.groups() =~= inserted_groups(g, r, p1@, p2@, v));
            }
            return ;
        }
        let k = joined(&xs, &sb);
        let ks = with_value(&k, CompareResult::Same);
        let empty: Vec<(String, CompareResult)> = Vec::new();
        let outs_a = self.row_cells_outside(a, &k, &empty);
        let outs_b = self.row_cells_outside(b, &k, &outs_a);
        proof {
            assert forall|x: Key| listed(k@, x) == in_class(r, a@, b@, x) by {}
            assert forall|x: Key| listed_cell(ks@, x) == listed(k@, x) by {
                if listed_cell(ks@, x) {
                    let j = choose|j: int| 0 <= j < ks@.len() && (#[trigger] ks@[j]).0@ == x;
                    assert(k@[j]@ == x);
                }
                if listed(k@, x) {
                    let j = choose|j: int| 0 <= j < k@.len() && (#[trigger] k@[j])@ == x;
                    assert(ks@[j].0@ == x);
                }
            }
            assert forall|x: Key| !listed_cell(empty@, x) by {}
            assert forall|i: int| 0 <= i < k@.len() implies self.has_row((#[trigger] k@[i])@) by {
                let x = k@[i]@;
                assert(listed(k@, x));
                if listed(xs@, x) {
                    let w = choose|w: int| 0 <= w < xs@.len() && (#[trigger] xs@[w])@ == x;
                    assert(self.has_row(xs@[w]@));
                } else {
                    let w = choose|w: int| 0 <= w < sb@.len() && (#[trigger] sb@[w])@ == x;
                    assert(self.has_row(sb@[w]@));
                }
            }
            assert forall|j: int| 0 <= j < ks@.len() implies self.has_row(
                (#[trigger] ks@[j]).0@,
            ) by {
                assert(ks@[j].0@ == k@[j]@);
                assert(self.has_row(k@[j]@));
            }
            assert forall|j: int| 0 <= j < outs_a@.len() implies self.has_row(
                (#[trigger] outs_a@[j]).0@,
            ) by {
                self.lemma_stored_rows(a@, outs_a@[j].0@);
            }
            assert forall|j: int| 0 <= j < outs_b@.len() implies self.has_row(
                (#[trigger] outs_b@[j]).0@,
            ) by {
                self.lemma_stored_rows(b@, outs_b@[j].0@);
            }
            assert forall|i: int, j: int, p: Key, q: Key|
                0 <= i < k@.len() && 0 <= j < ks@.len() && #[trigger] hit(
                    k@,
                    ks@,
                    i,
                    j,
                    p,
                    q,
                ) implies cell(t, p, q) == Some(
                if k@[i]@ == p {
                    ks@[j].1
                } else {
                    ks@[j].1.reversed()
                },
            ) by {
                assert(listed(k@, k@[i]@));
                assert(ks@[j].0@ == k@[j]@);
                assert(listed(k@, k@[j]@));
            }
            assert forall|i: int, j: int, p: Key, q: Key|
                0 <= i < k@.len() && 0 <= j < outs_a@.len() && #[trigger] hit(
                    k@,
                    outs_a@,
                    i,
                    j,
                    p,
                    q,
                ) implies cell(t, p, q) == Some(
                if k@[i]@ == p {
                    outs_a@[j].1
                } else {
                    outs_a@[j].1.reversed()
                },
            ) by {
                assert(listed(k@, k@[i]@));
                assert(!listed(k@, outs_a@[j].0@));
            }
            assert forall|i: int, j: int, p: Key, q: Key|
                0 <= i < k@.len() && 0 <= j < outs_b@.len() && #[trigger] hit(
                    k@,
                    outs_b@,
                    i,
                    j,
                    p,
                    q,
                ) implies cell(t, p, q) == Some(
                if k@[i]@ == p {
                    outs_b@[j].1
                } else {
                    outs_b@[j].1.reversed()
                },
            ) by {
                assert(listed(k@, k@[i]@));
                let z = outs_b@[j].0@;
                assert(!listed(k@, z));
                assert(!listed_cell(outs_a@, z));
                assert(!stored(r, a@, z));
            }
        }
        self.assign_block(&k, &ks, Ghost(t));
        self.assign_block(&k, &outs_a, Ghost(t));
        self.assign_block(&k, &outs_b, Ghost(t));
        proof {
            assert forall|p: Key, q: Key| cell(self@, p, q) == cell(t, p, q) by {
                if !covered(k@, outs_b@, p, q) && !covered(k@, outs_a@, p, q) && !covered(
                    k@,
                    ks@,
                    p,
                    q,
                ) && p != q {
                    let inp = in_class(r, a@, b@, p);
                    let inq = in_class(r, a@, b@, q);
                    assert(inp == listed(k@, p) && inq == listed(k@, q));
                    if inp && inq {
                        let i = choose|i: int| 0 <= i < k@.len() && (#[trigger] k@[i])@ == p;
                        let j = choose|j: int| 0 <= j < k@.len() && (#[trigger] k@[j])@ == q;
                        assert(ks@[j].0@ == q);
                        assert(hit(k@, ks@, i, j, p, q));
                    } else if inp {
                        let i = choose|i: int| 0 <= i < k@.len() && (#[trigger] k@[i])@ == p;
                        if stored(r, a@, q) {
                            let j = choose|j: int|
                                0 <= j < outs_a@.len() && (#[trigger] outs_a@[j]).0@ == q;
                            assert(hit(k@, outs_a@, i, j, p, q));
                        } else if stored(r, b@, q) {
                            let j = choose|j: int|
                                0 <= j < outs_b@.len() && (#[trigger] outs_b@[j]).0@ == q;
                            assert(hit(k@, outs_b@, i, j, p, q));
                        } else {
                            if stored(r, p, q) {
                                lemma_member_cell(r, a@, b@, p, q);
                            }
                        }
                    } else if inq {
                        let i = choose|i: int| 0 <= i < k@.len() && (#[trigger] k@[i])@ == q;
                        if stored(r, a@, p) {
                            let j = choose|j: int|
                                0 <= j < outs_a@.len() && (#[trigger] outs_a@[j]).0@ == p;
                            assert(hit(k@, outs_a@, i, j, p, q));
                        } else if stored(r, b@, p) {
                            let j = choose|j: int|
                                0 <= j < outs_b@.len() && (#[trigger] outs_b@[j]).0@ == p;
                            assert(hit(k@, outs_b@, i, j, p, q));
                        } else {
                            if stored(r, p, q) {
                                assert(stored(r, q, p));
                                lemma_member_cell(r, a@, b@, q, p);
                            }
                        }
                    }
                }
            }
            lemma_same_cells(self@, t);
        }
        let ia = self.row_position(a);
        let ib = self.row_position(b);
        proof {
            self.lemma_row(ia.unwrap() as int);
            self.lemma_row(ib.unwrap() as int);
        }
        self.merge_groups(ia.unwrap(), ib.unwrap());
        proof {
            assert(self.groups() =~= inserted_groups(g, r, p1@, p2@, v));
        }
    }
}

/// The first judgement of two keys that the cache knows no group of. A tie
/// joins the two groups as they came: the second key holds its own members
/// and then those of the first, and the first key is left with itself
/// alone. Any other result leaves both groups as they came. Either way the
/// pair then answers the result, and its mirror the reversed result.
pub proof fn law_first_judgement(c: Matrix, p1: Seq<Key>, p2: Seq<Key>, v: CompareResult)
    requires
        c.wf(),
        p1.len() > 0,
        p2.len() > 0,
        p1[0] != p2[0],
        !c.groups().dom().contains(p1[0]),
        !c.groups().dom().contains(p2[0]),
    ensures
        lookup(inserted(c@, p1[0], p2[0], v), p1[0], p2[0]) == Some(v),
        lookup(inserted(c@, p1[0], p2[0], v), p2[0], p1[0]) == Some(v.reversed()),
        v == CompareResult::Same ==> inserted_groups(c.groups(), c@, p1, p2, v)[p2[0]] == p2 + p1
            && inserted_groups(c.groups(), c@, p1, p2, v)[p1[0]] == seq![p1[0]],
        v != CompareResult::Same ==> inserted_groups(c.groups(), c@, p1, p2, v)[p1[0]] == p1
            && inserted_groups(c.groups(), c@, p1, p2, v)[p2[0]] == p2,
{
    law_insert_answers(c@, p1[0], p2[0], v);
    assert(!stored(c@, p1[0], p2[0]));
}

} // verus!
