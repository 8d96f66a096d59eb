//! The cache as plain rows, for saving and loading.
//!
//! A saved cache is a list of rows: the members of a group, first its key,
//! and the results of that key as weights. Loading checks what saving
//! guarantees, so that a file that was damaged or written by hand is not
//! taken for a cache.

use crate::compare::CompareResult;
use crate::line::{distinct_keys, has_key, index_of, lemma_cell_in_map, map_of, Line};
use crate::matrix::Matrix;
use crate::ordpaths::{keys_of, Key, OrdPaths};
use crate::relation::{cell, closed, stored, tied, Relation};
use vstd::prelude::*;

verus! {

/// A row as it is saved: the members of the group, first the key, and the
/// results of the key as weights.
pub type PlainRow = (Vec<String>, Vec<(String, i8)>);

/// The members of a saved row.
pub open spec fn row_members(row: PlainRow) -> Seq<Key> {
    keys_of(row.0@)
}

/// Whether every weight of a saved row is one of the five results.
pub open spec fn row_in_range(row: PlainRow) -> bool {
    forall|j: int| 0 <= j < row.1@.len() ==> -2 <= (#[trigger] row.1@[j]).1 <= 2
}

/// The cells of a saved row.
pub open spec fn row_cells(row: PlainRow) -> Seq<(Key, CompareResult)> {
    Seq::new(
        row.1@.len(),
        |j: int| (row.1@[j].0@, CompareResult::of_value(row.1@[j].1 as int)->0),
    )
}

/// Whether `rows` is the cache `m` as saved: row by row the same group and
/// the same cells in the same order.
pub open spec fn matches_rows(m: Matrix, rows: Seq<PlainRow>) -> bool {
    &&& rows.len() == m.height()
    &&& forall|i: int|
        0 <= i < rows.len() ==> row_members(#[trigger] rows[i]) == m.group_at(i) && row_in_range(
            rows[i],
        ) && row_cells(rows[i]) == m.cells_at(i)
}

/// The key of a saved row: the first member of its group.
pub open spec fn row_key(row: PlainRow) -> Key {
    row_members(row)[0]
}

/// Whether row `i` of `rows` is the row of the key `x`.
pub open spec fn row_is(rows: Seq<PlainRow>, i: int, x: Key) -> bool {
    0 <= i < rows.len() && row_key(rows[i]) == x
}

/// Whether cell `j` of row `i` of `rows` is the cell of `x` against `y`.
pub open spec fn cell_is(rows: Seq<PlainRow>, i: int, j: int, x: Key, y: Key) -> bool {
    row_is(rows, i, x) && 0 <= j < rows[i].1@.len() && rows[i].1@[j].0@ == y
}

/// Whether the rows hold a result for `(x, y)`.
pub open spec fn rows_store(rows: Seq<PlainRow>, x: Key, y: Key) -> bool {
    exists|i: int, j: int| #[trigger] cell_is(rows, i, j, x, y)
}

/// The result that the rows hold for `(x, y)`.
pub open spec fn rows_value(rows: Seq<PlainRow>, x: Key, y: Key) -> CompareResult {
    let (i, j) = choose|i: int, j: int| #[trigger] cell_is(rows, i, j, x, y);
    CompareResult::of_value(rows[i].1@[j].1 as int)->0
}

/// The relation that saved rows stand for, whatever their order.
pub open spec fn rows_relation(rows: Seq<PlainRow>) -> Relation {
    Map::new(
        |k: (Key, Key)| rows_store(rows, k.0, k.1),
        |k: (Key, Key)| rows_value(rows, k.0, k.1),
    )
}

/// The groups that saved rows stand for, whatever their order.
pub open spec fn rows_groups(rows: Seq<PlainRow>) -> Map<Key, Seq<Key>> {
    Map::new(
        |k: Key| exists|i: int| #[trigger] row_is(rows, i, k),
        |k: Key| row_members(rows[choose|i: int| #[trigger] row_is(rows, i, k)]),
    )
}

/// No key has two rows, and no row has two cells for one key.
pub open spec fn no_repeats(rows: Seq<PlainRow>) -> bool {
    &&& forall|i: int, l: int|
        0 <= i < rows.len() && 0 <= l < rows.len() && i != l ==> row_key(#[trigger] rows[i])
            != row_key(#[trigger] rows[l])
    &&& forall|i: int, j: int, l: int|
        0 <= i < rows.len() && 0 <= j < rows[i].1@.len() && 0 <= l < rows[i].1@.len() && j != l
            ==> (#[trigger] rows[i].1@[j]).0@ != (#[trigger] rows[i].1@[l]).0@
}

/// Whether saved rows stand for a cache: every group has a key, nothing is
/// there twice, every weight is one of the five results, and the relation
/// is closed.
pub open spec fn rows_valid(rows: Seq<PlainRow>) -> bool {
    &&& no_repeats(rows)
    &&& forall|i: int|
        0 <= i < rows.len() ==> row_members(#[trigger] rows[i]).len() > 0 && row_in_range(rows[i])
    &&& closed(rows_relation(rows))
}

/// Whether two saved cells are the same: the same key and the same weight.
pub open spec fn same_cell(c1: (String, i8), c2: (String, i8)) -> bool {
    c1.0@ == c2.0@ && c1.1 == c2.1
}

/// Whether `j` is the index of a cell of the row.
pub open spec fn in_cells(row: PlainRow, j: int) -> bool {
    0 <= j < row.1@.len()
}

/// Whether cell `l` of the row `r2` is cell `j` of the row `r1`.
pub open spec fn cell_in(r1: PlainRow, j: int, r2: PlainRow, l: int) -> bool {
    0 <= l < r2.1@.len() && same_cell(r1.1@[j], r2.1@[l])
}

/// Whether every cell of the row `r1` is a cell of the row `r2`.
pub open spec fn cells_within(r1: PlainRow, r2: PlainRow) -> bool {
    forall|j: int| #[trigger] in_cells(r1, j) ==> exists|l: int| #[trigger] cell_in(r1, j, r2, l)
}

/// Whether two saved rows are the same but for the order of their cells.
pub open spec fn same_row(r1: PlainRow, r2: PlainRow) -> bool {
    row_members(r1) == row_members(r2) && cells_within(r1, r2) && cells_within(r2, r1)
}

/// Whether `i` is the index of a row.
pub open spec fn in_rows(rows: Seq<PlainRow>, i: int) -> bool {
    0 <= i < rows.len()
}

/// Whether row `l` of `others` is, but for the order of its cells, row `i`
/// of `rows`.
pub open spec fn row_in(rows: Seq<PlainRow>, i: int, others: Seq<PlainRow>, l: int) -> bool {
    0 <= l < others.len() && same_row(rows[i], others[l])
}

/// Whether every row of `rows` is, but for the order of its cells, a row of
/// `others`.
pub open spec fn rows_within(rows: Seq<PlainRow>, others: Seq<PlainRow>) -> bool {
    forall|i: int|
        #[trigger] in_rows(rows, i) ==> exists|l: int| #[trigger] row_in(rows, i, others, l)
}

/// Whether two lists of saved rows hold the same rows and cells, in
/// whatever order.
pub open spec fn same_content(rows: Seq<PlainRow>, others: Seq<PlainRow>) -> bool {
    rows_within(rows, others) && rows_within(others, rows)
}

/// Where nothing is there twice, a cell of the rows is what the rows hold
/// for its pair of keys, and a row is the group of its key.
pub proof fn lemma_rows_cell(rows: Seq<PlainRow>, i: int, j: int)
    requires
        no_repeats(rows),
        0 <= i < rows.len(),
        0 <= j < rows[i].1@.len(),
    ensures
        rows_store(rows, row_key(rows[i]), rows[i].1@[j].0@),
        rows_value(rows, row_key(rows[i]), rows[i].1@[j].0@) == CompareResult::of_value(
            rows[i].1@[j].1 as int,
        )->0,
        rows_groups(rows).dom().contains(row_key(rows[i])),
        rows_groups(rows)[row_key(rows[i])] == row_members(rows[i]),
{
    let x = row_key(rows[i]);
    let y = rows[i].1@[j].0@;
    assert(cell_is(rows, i, j, x, y));
    let (i2, j2) = choose|i2: int, j2: int| #[trigger] cell_is(rows, i2, j2, x, y);
    assert(cell_is(rows, i2, j2, x, y));
    assert(i2 == i);
    assert(j2 == j);
    lemma_rows_group(rows, i);
}

/// Where no key has two rows, a row is the group of its key.
pub proof fn lemma_rows_group(rows: Seq<PlainRow>, i: int)
    requires
        no_repeats(rows),
        0 <= i < rows.len(),
    ensures
        rows_groups(rows).dom().contains(row_key(rows[i])),
        rows_groups(rows)[row_key(rows[i])] == row_members(rows[i]),
{
    let x = row_key(rows[i]);
    assert(row_is(rows, i, x));
    let i2 = choose|i2: int| #[trigger] row_is(rows, i2, x);
    assert(i2 == i);
}

/// The rows that a cache was saved to stand for its relation and groups.
pub proof fn lemma_matching_rows(m: Matrix, rows: Seq<PlainRow>)
    requires
        m.inv(),
        matches_rows(m, rows),
    ensures
        no_repeats(rows),
        forall|i: int|
            0 <= i < rows.len() ==> row_members(#[trigger] rows[i]).len() > 0 && row_in_range(
                rows[i],
            ),
        rows_relation(rows) == m@,
        rows_groups(rows) == m.groups(),
{
    assert forall|i: int| 0 <= i < rows.len() implies row_key(#[trigger] rows[i]) == m.key_at(i)
        && row_members(rows[i]).len() > 0 && row_in_range(rows[i]) by {
        m.lemma_row(i);
    }
    assert(no_repeats(rows)) by {
        assert forall|i: int, l: int|
            0 <= i < rows.len() && 0 <= l < rows.len() && i != l implies row_key(
            #[trigger] rows[i],
        ) != row_key(#[trigger] rows[l]) by {
            m.lemma_rows_distinct(i, l);
        }
        assert forall|i: int, j: int, l: int|
            0 <= i < rows.len() && 0 <= j < rows[i].1@.len() && 0 <= l < rows[i].1@.len() && j
                != l implies (#[trigger] rows[i].1@[j]).0@ != (#[trigger] rows[i].1@[l]).0@ by {
            m.lemma_line(i);
            let c = m.cells_at(i);
            assert(c == row_cells(rows[i]));
            assert(c[j].0 == rows[i].1@[j].0@);
            assert(c[l].0 == rows[i].1@[l].0@);
        }
    }
    let n = rows_relation(rows);
    assert forall|x: Key, y: Key| cell(n, x, y) == cell(m@, x, y) by {
        let k = (x, y);
        assert(k.0 == x && k.1 == y);
        if stored(m@, x, y) {
            m.lemma_stored_cell(x, y);
            let i = m.row_of(x);
            let j = index_of(m.cells_at(i), y);
            assert(m.cells_at(i) == row_cells(rows[i]));
            assert(rows[i].1@[j].0@ == y);
            lemma_rows_cell(rows, i, j);
        }
        if rows_store(rows, x, y) {
            let (i, j) = choose|i: int, j: int| #[trigger] cell_is(rows, i, j, x, y);
            assert(cell_is(rows, i, j, x, y));
            m.lemma_cell_stored(i, j);
            assert(m.cells_at(i) == row_cells(rows[i]));
            lemma_rows_cell(rows, i, j);
        }
    }
    crate::relation::lemma_same_cells(n, m@);
    assert forall|k: Key| rows_groups(rows).dom().contains(k) == m.groups().dom().contains(
        k,
    ) by {
        if m.has_row(k) {
            let i = m.row_of(k);
            m.lemma_row(i);
            assert(row_is(rows, i, k));
        }
        if rows_groups(rows).dom().contains(k) {
            let i = choose|i: int| #[trigger] row_is(rows, i, k);
            m.lemma_row(i);
        }
    }
    assert forall|k: Key| m.groups().dom().contains(k) implies rows_groups(rows)[k]
        == m.groups()[k] by {
        let i = m.row_of(k);
        m.lemma_row(i);
        lemma_rows_group(rows, i);
        assert(row_members(rows[i]) == m.group_at(i));
    }
    assert(rows_groups(rows) =~= m.groups());
}

/// The order of saved rows and of their cells does not count: rows that
/// hold the same rows and cells as rows that stand for a cache, each once,
/// stand for the same relation and the same groups.
pub proof fn law_any_order(rows: Seq<PlainRow>, others: Seq<PlainRow>)
    requires
        rows_valid(rows),
        same_content(rows, others),
        no_repeats(others),
    ensures
        rows_valid(others),
        rows_relation(others) == rows_relation(rows),
        rows_groups(others) == rows_groups(rows),
{
    lemma_within(rows, others);
    lemma_within(others, rows);
    let r1 = rows_relation(rows);
    let r2 = rows_relation(others);
    assert forall|x: Key, y: Key| cell(r2, x, y) == cell(r1, x, y) by {
        let k = (x, y);
        assert(k.0 == x && k.1 == y);
    }
    crate::relation::lemma_same_cells(r2, r1);
    assert(rows_groups(others) =~= rows_groups(rows));
    assert forall|l: int| 0 <= l < others.len() implies row_members(#[trigger] others[l]).len()
        > 0 && row_in_range(others[l]) by {
        assert(in_rows(others, l));
        let i = choose|i: int| #[trigger] row_in(others, l, rows, i);
        assert(row_members(rows[i]).len() > 0 && row_in_range(rows[i]));
        assert forall|j: int| 0 <= j < others[l].1@.len() implies -2 <= (
        #[trigger] others[l].1@[j]).1 <= 2 by {
            assert(in_cells(others[l], j));
            let j2 = choose|j2: int| #[trigger] cell_in(others[l], j, rows[i], j2);
            assert(-2 <= rows[i].1@[j2].1 <= 2);
        }
    }
}

/// What the rows `rows` hold, rows that hold all their rows and cells hold
/// as well.
proof fn lemma_within(rows: Seq<PlainRow>, others: Seq<PlainRow>)
    requires
        no_repeats(rows),
        no_repeats(others),
        rows_within(rows, others),
    ensures
        forall|x: Key, y: Key|
            #![trigger rows_store(rows, x, y)]
            rows_store(rows, x, y) ==> rows_store(others, x, y) && rows_value(others, x, y)
                == rows_value(rows, x, y),
        forall|k: Key|
            #![trigger rows_groups(rows).dom().contains(k)]
            rows_groups(rows).dom().contains(k) ==> rows_groups(others).dom().contains(k)
                && rows_groups(others)[k] == rows_groups(rows)[k],
{
    assert forall|x: Key, y: Key|
        #![trigger rows_store(rows, x, y)]
        rows_store(rows, x, y) implies rows_store(others, x, y) && rows_value(others, x, y)
        == rows_value(rows, x, y) by {
        let (i, j) = choose|i: int, j: int| #[trigger] cell_is(rows, i, j, x, y);
        assert(cell_is(rows, i, j, x, y));
        lemma_rows_cell(rows, i, j);
        assert(in_rows(rows, i));
        let l = choose|l: int| #[trigger] row_in(rows, i, others, l);
        assert(in_cells(rows[i], j));
        let l2 = choose|l2: int| #[trigger] cell_in(rows[i], j, others[l], l2);
        lemma_rows_cell(others, l, l2);
    }
    assert forall|k: Key|
        #![trigger rows_groups(rows).dom().contains(k)]
        rows_groups(rows).dom().contains(k) implies rows_groups(others).dom().contains(k)
        && rows_groups(others)[k] == rows_groups(rows)[k] by {
        let i = choose|i: int| #[trigger] row_is(rows, i, k);
        lemma_rows_group(rows, i);
        assert(in_rows(rows, i));
        let l = choose|l: int| #[trigger] row_in(rows, i, others, l);
        lemma_rows_group(others, l);
    }
}

/// Saving and loading give the cache back, in whatever order the rows and
/// their cells come back: rows that hold what was saved from a well formed
/// cache, each row and cell once, are accepted when loaded, and the loaded
/// cache holds the same relation and the same groups. `saved` stands for
/// what `rows` returns, `loaded` for what `from_rows` returns for `rows`.
pub proof fn law_round_trip(
    m: Matrix,
    saved: Seq<PlainRow>,
    rows: Seq<PlainRow>,
    loaded: Option<Matrix>,
)
    requires
        m.wf(),
        matches_rows(m, saved),
        same_content(saved, rows),
        no_repeats(rows),
        match loaded {
            Some(l) => l@ == rows_relation(rows) && l.groups() == rows_groups(rows),
            None => !rows_valid(rows),
        },
    ensures
        loaded is Some,
        loaded->0@ == m@,
        loaded->0.groups() == m.groups(),
{
    lemma_matching_rows(m, saved);
    law_any_order(saved, rows);
}

/// Rows hold the same content as themselves: the order in which they were
/// saved is one of the orders in which they may come back.
pub proof fn lemma_same_order(rows: Seq<PlainRow>)
    ensures
        same_content(rows, rows),
{
    assert forall|i: int| #[trigger] in_rows(rows, i) implies exists|l: int| #[trigger]
        row_in(rows, i, rows, l) by {
        assert forall|j: int| #[trigger] in_cells(rows[i], j) implies exists|l: int| #[trigger]
            cell_in(rows[i], j, rows[i], l) by {
            assert(cell_in(rows[i], j, rows[i], j));
        }
        assert(row_in(rows, i, rows, i));
    }
}

/// Saving and loading at once: what `rows` returns for a well formed cache
/// is accepted by `from_rows` as it stands, and the loaded cache holds the
/// same relation and the same groups.
pub proof fn law_round_trip_as_saved(m: Matrix, rows: Seq<PlainRow>, loaded: Option<Matrix>)
    requires
        m.wf(),
        matches_rows(m, rows),
        match loaded {
            Some(l) => l@ == rows_relation(rows) && l.groups() == rows_groups(rows),
            None => !rows_valid(rows),
        },
    ensures
        loaded is Some,
        loaded->0@ == m@,
        loaded->0.groups() == m.groups(),
{
    lemma_same_order(rows);
    lemma_matching_rows(m, rows);
    law_round_trip(m, rows, rows, loaded);
}

impl Matrix {
    /// The cache as plain rows, for saving.
    pub fn rows(&self) -> (out: Vec<PlainRow>)
        requires
            self.inv(),
        ensures
            matches_rows(*self, out@),
    {
        let n = self.rows_len();
        let mut out: Vec<PlainRow> = Vec::new();
        let mut i: usize = 0;
        while i < n
            invariant
                self.inv(),
                n == self.height(),
                i <= n,
                out@.len() == i,
                forall|l: int|
                    0 <= l < i ==> row_members(#[trigger] out@[l]) == self.group_at(l)
                        && row_in_range(out@[l]) && row_cells(out@[l]) == self.cells_at(l),
            decreases n - i,
        {
            let stored = self.row_group(i).members();
            let members = stored.clone();
            let cells = self.row_line(i).export();
            proof {
                assert(keys_of(members@) =~= keys_of(stored@));
                let row: PlainRow = (members, cells);
                assert(row_cells(row) =~= self.cells_at(i as int));
            }
            out.push((members, cells));
            i += 1;
        }
        out
    }

    /// The cache that plain rows stand for, if they stand for one: every
    /// group has a key, no key has two rows or two cells in a row, every
    /// weight is one of the five results, and the relation is closed.
    pub fn from_rows(rows: &Vec<PlainRow>) -> (r: Option<Matrix>)
        ensures
            match r {
                Some(m) => m.wf() && matches_rows(m, rows@) && rows_valid(rows@) && m@
                    == rows_relation(rows@) && m.groups() == rows_groups(rows@),
                None => !rows_valid(rows@),
            },
    {
        let mut m = Matrix::new();
        let mut i: usize = 0;
        while i < rows.len()
            invariant
                m.inv(),
                i <= rows@.len(),
                m.height() == i,
                forall|l: int|
                    0 <= l < i ==> row_members(#[trigger] rows@[l]) == m.group_at(l)
                        && row_in_range(rows@[l]) && row_cells(rows@[l]) == m.cells_at(l),
            decreases rows@.len() - i,
        {
            let members = &rows[i].0;
            let cells = &rows[i].1;
            if members.len() == 0 {
                assert(row_members(rows@[i as int]).len() == 0);
                return None;
            }
            let key = &members[0];
            assert(row_members(rows@[i as int])[0] == key@);
            match m.row_position(key) {
                Some(l) => {
                    proof {
                        m.lemma_row(l as int);
                        assert(row_members(rows@[l as int]) == m.group_at(l as int));
                        assert(row_key(rows@[l as int]) == row_key(rows@[i as int]));
                    }
                    return None;
                },
                None => {},
            }
            let mut line = Line::new();
            let mut j: usize = 0;
            while j < cells.len()
                invariant
                    j <= cells@.len(),
                    cells == &rows@[i as int].1,
                    i < rows@.len(),
                    line.wf(),
                    line.cells().len() == j,
                    forall|l: int|
                        0 <= l < j ==> -2 <= (#[trigger] cells@[l]).1 <= 2 && line.cells()[l] == (
                            cells@[l].0@,
                            CompareResult::of_value(cells@[l].1 as int)->0,
                        ),
                decreases cells@.len() - j,
            {
                let value = match CompareResult::from_i8(cells[j].1) {
                    Some(value) => value,
                    None => {
                        assert(!row_in_range(rows@[i as int]));
                        return None;
                    },
                };
                match line.position(&cells[j].0) {
                    Some(l) => {
                        proof {
                            assert(line.cells()[l as int].0 == cells@[l as int].0@);
                            assert(rows@[i as int].1@[l as int].0@ == rows@[i as int].1@[j as int].0@);
                        }
                        return None;
                    },
                    None => {},
                }
                line.push(cells[j].0.clone(), value);
                j += 1;
            }
            proof {
                assert(line.cells() =~= row_cells(rows@[i as int]));
                assert(row_in_range(rows@[i as int]));
            }
            let group = OrdPaths::new(members.clone());
            assert(group@ =~= row_members(rows@[i as int]));
            let ghost prev = m;
            m.push_row(group, line);
            proof {
                assert forall|l: int| 0 <= l < i + 1 implies row_members(#[trigger] rows@[l])
                    == m.group_at(l) && row_in_range(rows@[l]) && row_cells(rows@[l])
                    == m.cells_at(l) by {
                    if l < i {
                        assert(m.key_at(l) == prev.key_at(l));
                    }
                }
            }
            i += 1;
        }
        proof {
            lemma_matching_rows(m, rows@);
        }
        if !m.is_closed() {
            return None;
        }
        Some(m)
    }

    /// Whether cell `j` of row `i` has its mirror: the key of the cell is
    /// another one, and its row holds the reversed result for the key of
    /// row `i`.
    pub open spec fn mirror_at(&self, i: int, j: int) -> bool {
        let a = self.key_at(i);
        let c = self.cells_at(i)[j];
        a != c.0 && cell(self@, c.0, a) == Some(c.1.reversed())
    }

    /// Whether, if cell `j` of row `i` is a tie, the tied key has the result
    /// of cell `k` of that row as well.
    pub open spec fn ties_at(&self, i: int, j: int, k: int) -> bool {
        let b = self.cells_at(i)[j];
        let c = self.cells_at(i)[k];
        b.1 == CompareResult::Same && c.0 != b.0 ==> cell(self@, b.0, c.0) == Some(c.1)
    }

    /// Whether all cells of row `i` are mirrored and shared with tied keys.
    pub open spec fn row_closed_at(&self, i: int) -> bool {
        &&& forall|j: int| 0 <= j < self.cells_at(i).len() ==> #[trigger] self.mirror_at(i, j)
        &&& forall|j: int, k: int|
            0 <= j < self.cells_at(i).len() && 0 <= k < self.cells_at(i).len()
                ==> #[trigger] self.ties_at(i, j, k)
    }

    /// A stored pair is a cell of the row of its first key, and the other
    /// way round.
    pub proof fn lemma_stored_cell(&self, a: Key, b: Key)
        requires
            self.inv(),
            stored(self@, a, b),
        ensures
            self.has_row(a),
            0 <= self.row_of(a) < self.height(),
            self.key_at(self.row_of(a)) == a,
            has_key(self.cells_at(self.row_of(a)), b),
            0 <= index_of(self.cells_at(self.row_of(a)), b) < self.cells_at(self.row_of(a)).len(),
            self.cells_at(self.row_of(a))[index_of(self.cells_at(self.row_of(a)), b)] == (
                b,
                self@[(a, b)],
            ),
    {
        let i = self.row_of(a);
        self.lemma_row(i);
        self.lemma_cell(i, b);
        self.lemma_line(i);
        let c = self.cells_at(i);
        let j = index_of(c, b);
        lemma_cell_in_map(c, j);
    }

    /// A cell of a row is a stored pair.
    pub proof fn lemma_cell_stored(&self, i: int, j: int)
        requires
            self.inv(),
            0 <= i < self.height(),
            0 <= j < self.cells_at(i).len(),
        ensures
            cell(self@, self.key_at(i), self.cells_at(i)[j].0) == Some(self.cells_at(i)[j].1),
    {
        self.lemma_line(i);
        lemma_cell_in_map(self.cells_at(i), j);
        self.lemma_cell(i, self.cells_at(i)[j].0);
    }

    /// The relation is closed exactly when every row is.
    pub proof fn lemma_closed_by_rows(&self)
        requires
            self.inv(),
        ensures
            closed(self@) == (forall|i: int|
                0 <= i < self.height() ==> #[trigger] self.row_closed_at(i)),
    {
        let r = self@;
        if forall|i: int| 0 <= i < self.height() ==> #[trigger] self.row_closed_at(i) {
            assert forall|a: Key, b: Key| #[trigger] stored(r, a, b) implies a != b && stored(
                r,
                b,
                a,
            ) && r[(b, a)] == r[(a, b)].reversed() by {
                self.lemma_stored_cell(a, b);
                let i = self.row_of(a);
                let j = index_of(self.cells_at(i), b);
                assert(self.row_closed_at(i));
                assert(self.mirror_at(i, j));
            }
            assert forall|a: Key, b: Key, c: Key|
                #![trigger tied(r, a, b), stored(r, a, c)]
                tied(r, a, b) && stored(r, a, c) && b != c implies stored(r, b, c) && r[(b, c)]
                == r[(a, c)] by {
                if a != b {
                    self.lemma_stored_cell(a, b);
                    self.lemma_stored_cell(a, c);
                    let i = self.row_of(a);
                    let j = index_of(self.cells_at(i), b);
                    let k = index_of(self.cells_at(i), c);
                    assert(self.row_closed_at(i));
                    assert(self.ties_at(i, j, k));
                }
            }
        }
        if closed(r) {
            assert forall|i: int| 0 <= i < self.height() implies #[trigger] self.row_closed_at(
                i,
            ) by {
                let a = self.key_at(i);
                assert forall|j: int| 0 <= j < self.cells_at(i).len()
                    implies #[trigger] self.mirror_at(
                    i,
                    j,
                ) by {
                    self.lemma_cell_stored(i, j);
                    assert(stored(r, a, self.cells_at(i)[j].0));
                }
                assert forall|j: int, k: int|
                    0 <= j < self.cells_at(i).len() && 0 <= k < self.cells_at(i).len()
                    implies #[trigger] self.ties_at(i, j, k) by {
                    self.lemma_cell_stored(i, j);
                    self.lemma_cell_stored(i, k);
                    let b = self.cells_at(i)[j];
                    let c = self.cells_at(i)[k];
                    if b.1 == CompareResult::Same && c.0 != b.0 {
                        assert(tied(r, a, b.0) && stored(r, a, c.0));
                    }
                }
            }
        }
    }

    /// Whether the tie in cell `j` of row `i`, if it is one, is carried over
    /// to every other cell of the row.
    fn ties_hold(&self, i: usize, j: usize) -> (ok: bool)
        requires
            self.inv(),
            i < self.height(),
            j < self.cells_at(i as int).len(),
        ensures
            ok == (forall|k: int|
                0 <= k < self.cells_at(i as int).len() ==> #[trigger] self.ties_at(
                    i as int,
                    j as int,
                    k,
                )),
    {
        let line = self.row_line(i);
        if line.value_at(j) != CompareResult::Same {
            return true;
        }
        let b = line.key_at(j);
        let n = line.len();
        let mut k: usize = 0;
        while k < n
            invariant
                self.inv(),
                i < self.height(),
                j < self.cells_at(i as int).len(),
                line.cells() == self.cells_at(i as int),
                n == line.cells().len(),
                k <= n,
                b@ == self.cells_at(i as int)[j as int].0,
                self.cells_at(i as int)[j as int].1 == CompareResult::Same,
                forall|l: int| 0 <= l < k ==> #[trigger] self.ties_at(i as int, j as int, l),
            decreases n - k,
        {
            let c = line.key_at(k);
            if *c != *b {
                let found = self.raw(b, c);
                let same = match found {
                    Some(w) => w == line.value_at(k),
                    None => false,
                };
                if !same {
                    assert(!self.ties_at(i as int, j as int, k as int));
                    return false;
                }
            }
            k += 1;
        }
        true
    }

    /// Whether all cells of row `i` are mirrored and shared with tied keys.
    fn row_closed(&self, i: usize) -> (ok: bool)
        requires
            self.inv(),
            i < self.height(),
        ensures
            ok == self.row_closed_at(i as int),
    {
        let line = self.row_line(i);
        let a = self.row_group(i).canonical_key();
        let n = line.len();
        let mut j: usize = 0;
        while j < n
            invariant
                self.inv(),
                i < self.height(),
                line.cells() == self.cells_at(i as int),
                n == line.cells().len(),
                j <= n,
                a@ == self.key_at(i as int),
                forall|l: int| 0 <= l < j ==> #[trigger] self.mirror_at(i as int, l),
                forall|l: int, k: int|
                    0 <= l < j && 0 <= k < n ==> #[trigger] self.ties_at(i as int, l, k),
            decreases n - j,
        {
            let b = line.key_at(j);
            if *a == *b {
                assert(!self.mirror_at(i as int, j as int));
                return false;
            }
            let back = self.raw(b, a);
            let mirrored = match back {
                Some(w) => w == line.value_at(j).reverse(),
                None => false,
            };
            if !mirrored {
                assert(!self.mirror_at(i as int, j as int));
                return false;
            }
            if !self.ties_hold(i, j) {
                return false;
            }
            j += 1;
        }
        true
    }

    /// Whether the relation is closed.
    pub fn is_closed(&self) -> (ok: bool)
        requires
            self.inv(),
        ensures
            ok == closed(self@),
            ok == self.wf(),
    {
        let n = self.rows_len();
        let mut i: usize = 0;
        while i < n
            invariant
                self.inv(),
                n == self.height(),
                i <= n,
                forall|l: int| 0 <= l < i ==> #[trigger] self.row_closed_at(l),
            decreases n - i,
        {
            if !self.row_closed(i) {
                proof {
                    self.lemma_closed_by_rows();
                }
                return false;
            }
            i += 1;
        }
        proof {
            self.lemma_closed_by_rows();
        }
        true
    }
}

} // verus!
