//! What the grids of the screens show in each cell. Drawing is left to the
//! program; here is only which title, mark and item belong to which cell.

use vstd::prelude::*;

verus! {

/// A grid of three by three cells with a mark on each.
pub struct CheckBox<'a, T> {
    items: &'a [T],
    heighlight: &'a [bool],
}

impl<'a, T> CheckBox<'a, T> {
    /// The items to show.
    pub closed spec fn items(&self) -> Seq<T> {
        self.items@
    }

    /// The marks of the cells.
    pub closed spec fn marks(&self) -> Seq<bool> {
        self.heighlight@
    }

    /// A grid that shows `items`, cell `i` marked where `heighlight[i]` is set.
    pub fn new(items: &'a [T], heighlight: &'a [bool]) -> (c: CheckBox<'a, T>)
        ensures
            c.items() == items@,
            c.marks() == heighlight@,
    {
        CheckBox { items, heighlight }
    }

    /// The number of cells.
    pub fn cells(&self) -> (n: usize)
        ensures
            n == 9,
    {
        9
    }

    /// The number that cell `i` has as its title.
    pub fn title(&self, i: usize) -> (t: usize)
        requires
            i < 9,
        ensures
            t == i + 1,
    {
        i + 1
    }

    /// Whether cell `i` is marked.
    pub fn highlighted(&self, i: usize) -> (b: bool)
        requires
            i < 9,
            self.marks().len() >= 9,
        ensures
            b == self.marks()[i as int],
    {
        self.heighlight[i]
    }

    /// The item in cell `i`, if the items reach that far.
    pub fn item(&self, i: usize) -> (r: Option<&T>)
        requires
            i < 9,
        ensures
            match r {
                Some(t) => i < self.items().len() && *t == self.items()[i as int],
                None => i >= self.items().len(),
            },
    {
        if i < self.items.len() {
            Some(&self.items[i])
        } else {
            None
        }
    }
}

/// A grid of `R` rows and `C` columns.
pub struct TagGrid<'a, T, const R: usize, const C: usize> {
    items: &'a [T],
}

impl<'a, T, const R: usize, const C: usize> TagGrid<'a, T, R, C> {
    /// The items to show.
    pub closed spec fn items(&self) -> Seq<T> {
        self.items@
    }

    /// A grid that shows `items`, row by row.
    pub fn new(items: &'a [T]) -> (g: TagGrid<'a, T, R, C>)
        ensures
            g.items() == items@,
    {
        TagGrid { items }
    }

    /// The number of cells, or `None` if it is beyond `usize`.
    pub fn cells(&self) -> (n: Option<usize>)
        ensures
            match n {
                Some(v) => v == R * C,
                None => R * C > usize::MAX,
            },
    {
        R.checked_mul(C)
    }

    /// The row and the column of cell `i`.
    pub fn place(&self, i: usize) -> (rc: (usize, usize))
        requires
            i < R * C,
        ensures
            rc.0 == i as int / C as int,
            rc.1 == i as int % C as int,
            rc.0 < R,
            rc.1 < C,
            rc.0 * C + rc.1 == i,
    {
        assert(C > 0) by (nonlinear_arith)
            requires
                i < R * C,
                i >= 0,
                R >= 0,
                C >= 0,
        ;
        proof {
            vstd::arithmetic::div_mod::lemma_fundamental_div_mod(i as int, C as int);
            let q = i as int / C as int;
            assert(q < R) by (nonlinear_arith)
                requires
                    i == C * q + i as int % C as int,
                    0 <= i as int % C as int,
                    i < R * C,
                    C > 0,
            ;
            assert(C * q == q * C) by (nonlinear_arith);
        }
        (i / C, i % C)
    }

    /// The number that cell `i` has as its title.
    pub fn title(&self, i: usize) -> (t: usize)
        requires
            i < R * C,
            R * C <= usize::MAX,
        ensures
            t == i + 1,
    {
        i + 1
    }

    /// The item in cell `i`, if the items reach that far.
    pub fn item(&self, i: usize) -> (r: Option<&T>)
        ensures
            match r {
                Some(t) => i < self.items().len() && *t == self.items()[i as int],
                None => i >= self.items().len(),
            },
    {
        if i < self.items.len() {
            Some(&self.items[i])
        } else {
            None
        }
    }
}

} // verus!
