//! What the screens of the tool share: which screen is shown, the keys that
//! the logic tells apart, and the estimate of the work that is left.

use vstd::prelude::*;

verus! {

/// The screen that is shown.
#[derive(Debug, Clone, Copy, PartialEq, Eq, Structural)]
pub enum CurrentScreen {
    Main,
    Popup(u8),
    Finished,
    Exiting,
}

impl Default for CurrentScreen {
    fn default() -> (s: CurrentScreen)
        ensures
            s == CurrentScreen::Main,
    {
        CurrentScreen::Main
    }
}

/// A key press, as far as the logic tells keys apart.
#[derive(Debug, Clone, Copy, PartialEq, Eq, Structural)]
pub enum Input {
    Up,
    Down,
    Left,
    Right,
    Enter,
    Backspace,
    Tab,
    BackTab,
    Esc,
    Char(char),
    Other,
}

/// The number of binary digits of `i`; zero has none.
pub open spec fn digits(i: nat) -> nat
    decreases i,
{
    if i == 0 {
        0
    } else {
        1 + digits(i / 2)
    }
}

/// The sum of the binary digits of the numbers from `from` up to, not
/// including, `to`.
pub open spec fn digits_sum(from: nat, to: nat) -> nat
    decreases to,
{
    if to <= from {
        0
    } else {
        digits_sum(from, (to - 1) as nat) + digits((to - 1) as nat)
    }
}

/// The estimate in full: for fewer than three items one comparison less
/// than items, else a binary search for each item that is not placed yet.
pub open spec fn complexity_of(finished: nat, total: nat) -> nat {
    if total < 3 {
        if total <= 1 {
            0
        } else {
            (total - 1) as nat
        }
    } else {
        digits_sum(
            if finished < 1 {
                1
            } else {
                finished
            },
            total,
        )
    }
}

/// The number of binary digits of `i`.
pub fn bit_length(i: usize) -> (n: usize)
    ensures
        n == digits(i as nat),
        n <= usize::BITS,
{
    let mut rest = i;
    let mut n: usize = 0;
    proof {
        vstd::arithmetic::power2::lemma2_to64();
    }
    while rest > 0
        invariant
            n + digits(rest as nat) == digits(i as nat),
            n <= usize::BITS,
            rest > 0 ==> n < usize::BITS,
            rest as nat * vstd::arithmetic::power2::pow2(n as nat) <= i,
        decreases rest,
    {
        proof {
            lemma_rest_bound(rest as nat, n as nat, i as nat);
        }
        rest = rest / 2;
        n = n + 1;
    }
    n
}

/// Halving a remainder that was shifted out `n` times keeps it under the
/// number it came from, and leaves room for one more digit.
proof fn lemma_rest_bound(rest: nat, n: nat, i: nat)
    requires
        rest > 0,
        rest * vstd::arithmetic::power2::pow2(n) <= i,
        i <= usize::MAX,
        n <= usize::BITS,
    ensures
        (rest / 2) * vstd::arithmetic::power2::pow2(n + 1) <= i,
        n < usize::BITS,
        rest / 2 > 0 ==> n + 1 < usize::BITS,
{
    let p = vstd::arithmetic::power2::pow2(n);
    vstd::arithmetic::power2::lemma_pow2_unfold(n + 1);
    assert(vstd::arithmetic::power2::pow2(n + 1) == 2 * p);
    assert((rest / 2) * (2 * p) <= rest * p) by (nonlinear_arith)
        requires
            p >= 0,
            rest >= 0,
    ;
    vstd::arithmetic::power2::lemma_pow2_pos(n);
    assert(p <= rest * p) by (nonlinear_arith)
        requires
            rest >= 1,
            p >= 1,
    ;
    if n >= usize::BITS {
        vstd::arithmetic::power2::lemma_pow2_strictly_increases(usize::BITS as nat, n + 1);
        vstd::arithmetic::power2::lemma2_to64();
        vstd::arithmetic::power2::lemma2_to64_rest();
        assert(false);
    }
    if rest / 2 > 0 && n + 1 >= usize::BITS {
        let q = vstd::arithmetic::power2::pow2(n + 1);
        assert(q <= (rest / 2) * q) by (nonlinear_arith)
            requires
                rest / 2 >= 1,
                q >= 1,
        ;
        vstd::arithmetic::power2::lemma2_to64();
        vstd::arithmetic::power2::lemma2_to64_rest();
        assert(false);
    }
}

/// An estimate of the comparisons that are still to make when `finished` of
/// `total` items are placed. An estimate beyond `usize` is given as
/// `usize::MAX`.
pub fn complexity(finished: usize, total: usize) -> (res: usize)
    ensures
        res == (if complexity_of(finished as nat, total as nat) > usize::MAX {
            usize::MAX as nat
        } else {
            complexity_of(finished as nat, total as nat)
        }),
{
    if total < 3 {
        if total <= 1 {
            return 0;
        }
        return total - 1;
    }
    let start: usize = if finished < 1 {
        1
    } else {
        finished
    };
    let mut res: usize = 0;
    let mut i: usize = start;
    if start >= total {
        return 0;
    }
    while i < total
        invariant
            start <= i <= total,
            res == (if digits_sum(start as nat, i as nat) > usize::MAX {
                usize::MAX as nat
            } else {
                digits_sum(start as nat, i as nat)
            }),
        decreases total - i,
    {
        let b = bit_length(i);
        if res > usize::MAX - b {
            res = usize::MAX;
        } else {
            res = res + b;
        }
        i = i + 1;
    }
    res
}

} // verus!
