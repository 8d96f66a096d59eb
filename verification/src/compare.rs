//! The five-valued result of comparing two items.

use std::cmp::Ordering;
use vstd::prelude::*;

verus! {

/// How the first item of a pair relates to the second.
#[derive(Debug, Clone, Copy, PartialEq, Eq, Structural)]
pub enum CompareResult {
    MuchBetter,
    Better,
    Same,
    Worse,
    MuchWorse,
}

impl CompareResult {
    /// The signed weight of the result, between -2 and 2. Zero is the tie.
    pub open spec fn value(self) -> int {
        match self {
            CompareResult::MuchBetter => 2,
            CompareResult::Better => 1,
            CompareResult::Same => 0,
            CompareResult::Worse => -1,
            CompareResult::MuchWorse => -2,
        }
    }

    /// The result seen from the other item: the one with the negated weight.
    pub open spec fn reversed(self) -> CompareResult {
        match self {
            CompareResult::MuchBetter => CompareResult::MuchWorse,
            CompareResult::Better => CompareResult::Worse,
            CompareResult::Same => CompareResult::Same,
            CompareResult::Worse => CompareResult::Better,
            CompareResult::MuchWorse => CompareResult::MuchBetter,
        }
    }

    /// The result with the given weight, if the weight is between -2 and 2.
    pub open spec fn of_value(v: int) -> Option<CompareResult> {
        if v == 2 {
            Some(CompareResult::MuchBetter)
        } else if v == 1 {
            Some(CompareResult::Better)
        } else if v == 0 {
            Some(CompareResult::Same)
        } else if v == -1 {
            Some(CompareResult::Worse)
        } else if v == -2 {
            Some(CompareResult::MuchWorse)
        } else {
            None
        }
    }

    /// The tie.
    pub fn zero() -> (r: CompareResult)
        ensures
            r == CompareResult::Same,
            r.value() == 0,
    {
        CompareResult::Same
    }

    /// Reverses the result: `a.reverse()` is what the second item is to the first.
    pub fn reverse(&self) -> (r: CompareResult)
        ensures
            r == self.reversed(),
            r.value() == -self.value(),
    {
        match self {
            CompareResult::MuchBetter => CompareResult::MuchWorse,
            CompareResult::Better => CompareResult::Worse,
            CompareResult::Same => CompareResult::Same,
            CompareResult::Worse => CompareResult::Better,
            CompareResult::MuchWorse => CompareResult::MuchBetter,
        }
    }

    /// The weight as a machine integer, for serialising and for scores.
    pub fn to_i8(&self) -> (v: i8)
        ensures
            v == self.value(),
    {
        match self {
            CompareResult::MuchBetter => 2,
            CompareResult::Better => 1,
            CompareResult::Same => 0,
            CompareResult::Worse => -1,
            CompareResult::MuchWorse => -2,
        }
    }

    /// The result with weight `v`; `None` when `v` is outside -2..=2.
    pub fn from_i8(v: i8) -> (r: Option<CompareResult>)
        ensures
            r == CompareResult::of_value(v as int),
            r is Some <==> -2 <= v <= 2,
            r matches Some(c) ==> c.value() == v,
    {
        if v == 2 {
            Some(CompareResult::MuchBetter)
        } else if v == 1 {
            Some(CompareResult::Better)
        } else if v == 0 {
            Some(CompareResult::Same)
        } else if v == -1 {
            Some(CompareResult::Worse)
        } else if v == -2 {
            Some(CompareResult::MuchWorse)
        } else {
            None
        }
    }

    /// The coarse order that a sort uses: only the sign of the weight counts.
    pub fn ordering(&self) -> (o: Ordering)
        ensures
            o == Ordering::Less <==> self.value() < 0,
            o == Ordering::Equal <==> self.value() == 0,
            o == Ordering::Greater <==> self.value() > 0,
    {
        match self {
            CompareResult::MuchBetter | CompareResult::Better => Ordering::Greater,
            CompareResult::Same => Ordering::Equal,
            CompareResult::Worse | CompareResult::MuchWorse => Ordering::Less,
        }
    }
}

impl Default for CompareResult {
    fn default() -> (r: CompareResult)
        ensures
            r == CompareResult::Same,
    {
        CompareResult::Same
    }
}

/// Reversing negates the weight, so reversing twice gives the result back,
/// and the tie is the one result that is its own reverse.
pub proof fn law_reverse(m: CompareResult)
    ensures
        m.reversed().reversed() == m,
        m.reversed().value() == -m.value(),
        m.reversed() == CompareResult::Same <==> m == CompareResult::Same,
{
}

} // verus!
