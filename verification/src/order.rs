//! The order of names, and lists in that order.

use crate::ordpaths::keys_of;
use vstd::prelude::*;

verus! {

/// Whether the text `a` comes before the text `b`, or is the same: texts
/// are compared character by character, and a text comes before the texts
/// that it begins.
pub open spec fn text_le(a: Seq<char>, b: Seq<char>) -> bool
    decreases a.len(),
{
    if a.len() == 0 {
        true
    } else if b.len() == 0 {
        false
    } else if a[0] == b[0] {
        text_le(a.drop_first(), b.drop_first())
    } else {
        (a[0] as u32) < (b[0] as u32)
    }
}

/// Whether the pair `a` comes before the pair `b`, or is the same: by the
/// score, and for equal scores by the name.
pub open spec fn pair_le(a: (i64, Seq<char>), b: (i64, Seq<char>)) -> bool {
    a.0 < b.0 || (a.0 == b.0 && text_le(a.1, b.1))
}

/// Whether the names are in ascending order.
pub open spec fn ascending(names: Seq<Seq<char>>) -> bool {
    forall|i: int, j: int| 0 <= i < j < names.len() ==> text_le(names[i], names[j])
}

/// Whether the pairs are in ascending order.
pub open spec fn ascending_pairs(pairs: Seq<(i64, Seq<char>)>) -> bool {
    forall|i: int, j: int| 0 <= i < j < pairs.len() ==> pair_le(pairs[i], pairs[j])
}

/// Whether the pairs are in descending order.
pub open spec fn descending_pairs(pairs: Seq<(i64, Seq<char>)>) -> bool {
    forall|i: int, j: int| 0 <= i < j < pairs.len() ==> pair_le(pairs[j], pairs[i])
}

/// The pairs of a list by the texts of their names.
pub open spec fn scored_of(pairs: Seq<(i64, String)>) -> Seq<(i64, Seq<char>)> {
    Seq::new(pairs.len(), |i: int| (pairs[i].0, pairs[i].1@))
}

/// `sort` of std's slices on a list of names. std documents that it puts
/// the slice in ascending order and that strings are ordered by their
/// bytes, which is the order of their characters; the slice holds the same
/// names afterwards.
#[verifier::external_body]
pub(crate) fn sort_names(names: &mut Vec<String>)
    ensures
        ascending(keys_of(final(names)@)),
        keys_of(final(names)@).to_multiset() == keys_of(old(names)@).to_multiset(),
{
    names.sort();
}

/// `sort_unstable` of std's slices on pairs of score and name. std
/// documents that it puts the slice in ascending order, and that pairs are
/// ordered by their first component and then by their second; the slice
/// holds the same pairs afterwards.
#[verifier::external_body]
pub(crate) fn sort_scored(pairs: &mut Vec<(i64, String)>)
    ensures
        ascending_pairs(scored_of(final(pairs)@)),
        scored_of(final(pairs)@).to_multiset() == scored_of(old(pairs)@).to_multiset(),
{
    pairs.sort_unstable();
}

} // verus!
