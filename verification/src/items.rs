//! A list that is shown page by page.

use vstd::prelude::*;
use vstd::std_specs::cmp::PartialEqSpec;

verus! {

/// The side on which the next page is expected, so that it can be loaded
/// ahead.
#[derive(Debug, Clone, Copy, PartialEq, Eq, Structural)]
pub enum PreLoadDirection {
    Forward,
    Backward,
}

impl PreLoadDirection {
    /// The other direction.
    pub fn not(self) -> (d: PreLoadDirection)
        ensures
            d != self,
    {
        match self {
            PreLoadDirection::Forward => PreLoadDirection::Backward,
            PreLoadDirection::Backward => PreLoadDirection::Forward,
        }
    }
}

impl Default for PreLoadDirection {
    fn default() -> (d: PreLoadDirection)
        ensures
            d == PreLoadDirection::Forward,
    {
        PreLoadDirection::Forward
    }
}

/// A list with `N` items to the page and a current page.
#[derive(Debug)]
pub struct Items<T, const N: usize> {
    page: usize,
    direction: PreLoadDirection,
    items: Vec<T>,
}

/// The smaller of two numbers.
pub open spec fn least(a: int, b: int) -> int {
    if a <= b {
        a
    } else {
        b
    }
}

/// The items of page `page` of `s`, with `n` items to the page.
pub open spec fn page_of<T>(s: Seq<T>, page: int, n: int) -> Seq<T> {
    s.subrange(page * n, least((page + 1) * n, s.len() as int))
}

/// A page that begins inside the list holds at most `n` items: `n` where
/// that many are left, else the rest of the list.
pub proof fn lemma_page_len<T>(s: Seq<T>, page: int, n: int)
    requires
        0 <= page,
        0 <= n,
        page * n <= s.len(),
    ensures
        page_of(s, page, n).len() == least(n, s.len() - page * n),
        forall|i: int|
            0 <= i < page_of(s, page, n).len() ==> (#[trigger] page_of(s, page, n)[i]) == s[page * n
                + i],
{
    assert((page + 1) * n == page * n + n) by (nonlinear_arith);
}

/// The test that keeps what does not equal `item`.
pub open spec fn differs<T: PartialEq>(item: T) -> spec_fn(T) -> bool {
    |x: T| !x.eq_spec(&item)
}

/// The first index of `s` at which `item` is found by `==`.
pub open spec fn first_match<T: PartialEq>(s: Seq<T>, item: T) -> int
    decreases s.len(),
{
    if s.len() == 0 {
        0
    } else if s[0].eq_spec(&item) {
        0
    } else {
        1 + first_match(s.drop_first(), item)
    }
}

impl<T, const N: usize> View for Items<T, N> {
    type V = Seq<T>;

    /// All items, in order.
    closed spec fn view(&self) -> Seq<T> {
        self.items@
    }
}

impl<T, const N: usize> Items<T, N> {
    /// The current page, counted from zero.
    pub closed spec fn current(&self) -> nat {
        self.page as nat
    }

    /// The direction of the last move.
    pub closed spec fn direction(&self) -> PreLoadDirection {
        self.direction
    }

    /// Whether the current page begins inside the list or at its end.
    pub open spec fn wf(&self) -> bool {
        self.current() * N <= self@.len()
    }

    /// Whether a page follows the current one.
    pub open spec fn has_next(&self) -> bool {
        (self.current() + 1) * N < self@.len()
    }

    /// A list on its first page.
    pub fn new(items: Vec<T>) -> (r: Items<T, N>)
        ensures
            r@ == items@,
            r.current() == 0,
            r.direction() == PreLoadDirection::Forward,
            r.wf(),
    {
        Items { items, page: 0, direction: PreLoadDirection::Forward }
    }

    /// The current page.
    pub fn page(&self) -> (p: usize)
        ensures
            p == self.current(),
    {
        self.page
    }

    /// The number of items.
    pub fn len(&self) -> (n: usize)
        ensures
            n == self@.len(),
    {
        self.items.len()
    }

    /// Whether a page follows the current one, computed without overflow.
    fn next_exists(&self) -> (b: bool)
        ensures
            b == self.has_next(),
    {
        let next: u128 = self.page as u128 + 1;
        assert(next * N <= 0x1_0000_0000_0000_0000 * 0xffff_ffff_ffff_ffff) by (nonlinear_arith)
            requires
                0 <= next <= 0x1_0000_0000_0000_0000,
                0 <= N <= 0xffff_ffff_ffff_ffff,
        ;
        let start: u128 = next * (N as u128);
        start < self.items.len() as u128
    }

    /// Goes to the next page, if there is one. Returns whether the end was
    /// reached instead.
    pub fn inc_page(&mut self) -> (over: bool)
        requires
            N > 0,
        ensures
            final(self)@ == old(self)@,
            final(self).direction() == PreLoadDirection::Forward,
            over == !old(self).has_next(),
            final(self).current() == (if over {
                old(self).current() as int
            } else {
                old(self).current() as int + 1
            }),
            !over ==> final(self).wf(),
            old(self).wf() ==> final(self).wf(),
    {
        self.direction = PreLoadDirection::Forward;
        let len = self.items.len();
        if self.next_exists() {
            assert(self.page + 1 <= (self.page + 1) * N) by (nonlinear_arith)
                requires
                    N >= 1,
                    self.page >= 0,
            ;
            assert(self.page + 1 < len);
            self.page += 1;
            false
        } else {
            true
        }
    }

    /// Goes to the previous page, if there is one. Returns whether the
    /// beginning was reached instead.
    pub fn dec_page(&mut self) -> (over: bool)
        ensures
            final(self)@ == old(self)@,
            final(self).direction() == PreLoadDirection::Backward,
            over == (old(self).current() == 0),
            final(self).current() == (if over {
                0
            } else {
                old(self).current() - 1
            }),
            old(self).wf() ==> final(self).wf(),
    {
        self.direction = PreLoadDirection::Backward;
        if self.page > 0 {
            assert((self.page - 1) * N <= self.page * N) by (nonlinear_arith)
                requires
                    self.page >= 1,
                    N >= 0,
            ;
            self.page -= 1;
            false
        } else {
            true
        }
    }

    /// Goes to `page`, or to the last page if the list ends before `page`.
    pub fn set_page(&mut self, page: usize)
        requires
            N > 0,
        ensures
            final(self)@ == old(self)@,
            final(self).direction() == old(self).direction(),
            final(self).current() == least(
                page as int,
                (if old(self)@.len() == 0 {
                    0
                } else {
                    old(self)@.len() - 1
                }) / (N as int),
            ),
            final(self).wf(),
    {
        let len = self.items.len();
        let last = if len == 0 {
            0
        } else {
            len - 1
        };
        let limit = last / N;
        let page = if page < limit {
            page
        } else {
            limit
        };
        proof {
            vstd::arithmetic::div_mod::lemma_fundamental_div_mod(last as int, N as int);
            assert(page * N <= limit * N) by (nonlinear_arith)
                requires
                    page <= limit,
                    N >= 0,
            ;
            assert(limit * N == N * limit) by (nonlinear_arith);
        }
        self.page = page;
    }

    /// The items of the current page.
    pub fn current_items(&self) -> (r: &[T])
        requires
            self.wf(),
        ensures
            r@ == page_of(self@, self.current() as int, N as int),
    {
        let len = self.items.len();
        assert(self.page * N <= len);
        let l = self.page * N;
        let r = if len - l < N {
            len
        } else {
            l + N
        };
        assert((self.page + 1) * N == self.page * N + N) by (nonlinear_arith);
        vstd::slice::slice_subrange(self.items.as_slice(), l, r)
    }

    /// The items of the page that is likely to be shown next: the one in
    /// the direction of the last move, or else the one on the other side,
    /// or nothing if there is no other page.
    pub fn preload_items(&self) -> (r: &[T])
        requires
            self.wf(),
        ensures
            r@ == (if self.direction() == PreLoadDirection::Forward {
                if self.has_next() {
                    page_of(self@, self.current() as int + 1, N as int)
                } else if self.current() > 0 {
                    page_of(self@, self.current() - 1, N as int)
                } else {
                    Seq::<T>::empty()
                }
            } else {
                if self.current() > 0 {
                    page_of(self@, self.current() - 1, N as int)
                } else if self.has_next() {
                    page_of(self@, self.current() as int + 1, N as int)
                } else {
                    Seq::<T>::empty()
                }
            }),
    {
        let forward = self.next_exists();
        let backward = self.page > 0;
        let go_forward = match self.direction {
            PreLoadDirection::Forward => forward,
            PreLoadDirection::Backward => forward && !backward,
        };
        let len = self.items.len();
        assert(self.page * N <= len);
        if go_forward {
            assert((self.page + 1) * N == self.page * N + N) by (nonlinear_arith);
            assert((self.page + 2) * N == self.page * N + N + N) by (nonlinear_arith);
            let l = self.page * N + N;
            let r = if len - l < N {
                len
            } else {
                l + N
            };
            vstd::slice::slice_subrange(self.items.as_slice(), l, r)
        } else if backward {
            assert((self.page - 1) * N == self.page * N - N) by (nonlinear_arith);
            assert(self.page * N >= N) by (nonlinear_arith)
                requires
                    self.page >= 1,
                    N >= 0,
            ;
            let r = self.page * N;
            let l = r - N;
            vstd::slice::slice_subrange(self.items.as_slice(), l, r)
        } else {
            vstd::slice::slice_subrange(self.items.as_slice(), 0, 0)
        }
    }
}

impl<T: PartialEq, const N: usize> Items<T, N> {
    /// Puts `item` in the place of the first item that equals it, or at the
    /// end if none does.
    pub fn push(&mut self, item: T)
        ensures
            final(self).current() == old(self).current(),
            final(self).direction() == old(self).direction(),
            T::obeys_eq_spec() ==> final(self)@
                == (if first_match(old(self)@, item) < old(self)@.len() {
                old(self)@.update(first_match(old(self)@, item), item)
            } else {
                old(self)@.push(item)
            }),
            old(self).wf() ==> final(self).wf(),
    {
        let ghost all = self.items@;
        let mut i: usize = 0;
        assert(all.skip(0) =~= all);
        while i < self.items.len()
            invariant
                i <= self.items@.len(),
                self.items@ == all,
                all == old(self).items@,
                self.page == old(self).page,
                self.direction == old(self).direction,
                T::obeys_eq_spec() ==> first_match(all, item) == i + first_match(
                    all.skip(i as int),
                    item,
                ),
            decreases self.items@.len() - i,
        {
            proof {
                assert(all.skip(i as int)[0] == all[i as int]);
                assert(all.skip(i as int).drop_first() =~= all.skip(i as int + 1));
            }
            if self.items[i].eq(&item) {
                assert(T::obeys_eq_spec() ==> first_match(all.skip(i as int), item) == 0);
                self.items[i] = item;
                assert(self.items@ =~= all.update(i as int, item));
                return ;
            }
            assert(T::obeys_eq_spec() ==> first_match(all.skip(i as int), item) == 1 + first_match(
                all.skip(i as int + 1),
                item,
            ));
            i += 1;
        }
        assert(all.skip(i as int).len() == 0);
        assert(T::obeys_eq_spec() ==> first_match(all, item) == all.len());
        self.items.push(item);
    }

    /// Removes every item that equals `item`. The current page stays, also
    /// where the list now ends before it.
    pub fn remove(&mut self, item: &T)
        ensures
            final(self).current() == old(self).current(),
            final(self).direction() == old(self).direction(),
            T::obeys_eq_spec() ==> final(self)@ == old(self)@.filter(differs(*item)),
    {
        let ghost all = self.items@;
        let ghost keep = differs(*item);
        let ghost mut k: int = 0;
        let mut i: usize = 0;
        proof {
            reveal(Seq::filter);
            assert(all.take(0).filter(keep) =~= Seq::<T>::empty());
            assert(all.skip(0) =~= all);
        }
        while i < self.items.len()
            invariant
                0 <= k <= all.len(),
                all == old(self).items@,
                keep == differs(*item),
                i <= self.items@.len(),
                self.items@.len() - i == all.len() - k,
                self.page == old(self).page,
                self.direction == old(self).direction,
                self.items@.skip(i as int) == all.skip(k),
                T::obeys_eq_spec() ==> self.items@.take(i as int) == all.take(k).filter(keep),
            decreases self.items@.len() - i,
        {
            let ghost cur = self.items@;
            proof {
                assert(cur.skip(i as int)[0] == all.skip(k)[0]);
                assert(cur[i as int] == all[k]);
                assert(all.take(k + 1).drop_last() =~= all.take(k));
                assert(all.take(k + 1).last() == all[k]);
                assert(all.take(k + 1).filter(keep) == (if keep(all[k]) {
                    all.take(k).filter(keep).push(all[k])
                } else {
                    all.take(k).filter(keep)
                })) by {
                    reveal(Seq::filter);
                }
            }
            if self.items[i].eq(item) {
                self.items.remove(i);
                proof {
                    assert(self.items@.skip(i as int) =~= cur.skip(i as int).drop_first());
                    assert(all.skip(k + 1) =~= all.skip(k).drop_first());
                    assert(self.items@.take(i as int) =~= cur.take(i as int));
                    k = k + 1;
                }
            } else {
                proof {
                    assert(cur.take(i as int + 1) =~= cur.take(i as int).push(cur[i as int]));
                    assert(cur.skip(i as int + 1) =~= cur.skip(i as int).drop_first());
                    assert(all.skip(k + 1) =~= all.skip(k).drop_first());
                    k = k + 1;
                }
                i += 1;
            }
        }
        proof {
            assert(all.take(k) =~= all);
            assert(self.items@.take(i as int) =~= self.items@);
        }
    }
}

} // verus!
