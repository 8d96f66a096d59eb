//! The mathematical model of the comparison cache.
//!
//! A relation stores a result for ordered pairs of distinct keys. It is
//! closed when every stored pair has its mirror with the reversed result and
//! when tied keys have the same results against every other key. Inserting
//! into a closed relation is defined so that the outcome is closed again.

use crate::compare::CompareResult;
use crate::ordpaths::Key;
use vstd::prelude::*;

verus! {

/// The stored results, keyed by ordered pair.
pub type Relation = Map<(Key, Key), CompareResult>;

/// Whether a result for `(a, b)` is stored.
pub open spec fn stored(r: Relation, a: Key, b: Key) -> bool {
    r.dom().contains((a, b))
}

/// The stored result for `(a, b)`, if any.
pub open spec fn cell(r: Relation, a: Key, b: Key) -> Option<CompareResult> {
    if stored(r, a, b) {
        Some(r[(a, b)])
    } else {
        None
    }
}

/// What the cache answers for `(a, b)`: a key ties with itself without any
/// stored entry, other pairs have the stored result or none.
pub open spec fn lookup(r: Relation, a: Key, b: Key) -> Option<CompareResult> {
    if a == b {
        Some(CompareResult::Same)
    } else {
        cell(r, a, b)
    }
}

/// Whether `a` and `b` are known to be equal in score.
pub open spec fn tied(r: Relation, a: Key, b: Key) -> bool {
    a == b || cell(r, a, b) == Some(CompareResult::Same)
}

/// Every stored pair joins two distinct keys and has its mirror stored with
/// the reversed result.
pub open spec fn mirrored(r: Relation) -> bool {
    forall|a: Key, b: Key| #[trigger]
        stored(r, a, b) ==> a != b && stored(r, b, a) && r[(b, a)] == r[(a, b)].reversed()
}

/// Tied keys agree on every third key.
pub open spec fn tie_closed(r: Relation) -> bool {
    forall|a: Key, b: Key, c: Key|
        #![trigger tied(r, a, b), stored(r, a, c)]
        tied(r, a, b) && stored(r, a, c) && b != c ==> stored(r, b, c) && r[(b, c)] == r[(a, c)]
}

/// The invariant of the cache.
pub open spec fn closed(r: Relation) -> bool {
    mirrored(r) && tie_closed(r)
}

/// Whether the second key of `insert(a, b, m)` takes its class along. It
/// does unless what is stored for `(a, b)` is against it: a tie where another
/// result comes, or another result where a tie comes. Then the second key
/// leaves its class and goes alone.
pub open spec fn carried(r: Relation, a: Key, b: Key, m: CompareResult) -> bool {
    !stored(r, a, b) || ((r[(a, b)] == CompareResult::Same) == (m == CompareResult::Same))
}

/// Whether `x` is on the side of the first key of `insert(a, b, m)`: tied to
/// `a`, and not `b` itself.
pub open spec fn side_a(r: Relation, a: Key, b: Key, x: Key) -> bool {
    tied(r, a, x) && x != b
}

/// Whether `y` is on the side of the second key of `insert(a, b, m)`: `b`
/// itself and, where `b` takes its class along, the keys tied to `b`.
pub open spec fn side_b(r: Relation, a: Key, b: Key, m: CompareResult, y: Key) -> bool {
    y == b || (carried(r, a, b, m) && tied(r, b, y))
}

/// Whether `x` belongs to the class that a tie of `a` and `b` forms.
pub open spec fn in_class(r: Relation, a: Key, b: Key, x: Key) -> bool {
    side_a(r, a, b, x) || side_b(r, a, b, CompareResult::Same, x)
}

/// What the merged class of `a` and `b` knows about `z`: the row of `a`
/// decides, and where it is silent the row of `b`.
pub open spec fn joint_cell(r: Relation, a: Key, b: Key, z: Key) -> Option<CompareResult> {
    if stored(r, a, z) {
        Some(r[(a, z)])
    } else {
        cell(r, b, z)
    }
}

/// The reversed result, where there is one.
pub open spec fn reversed_cell(c: Option<CompareResult>) -> Option<CompareResult> {
    match c {
        Some(m) => Some(m.reversed()),
        None => None,
    }
}

/// The stored result for `(x, y)` after `insert(a, b, m)`.
///
/// - A key is never stored against itself, so `a == b` changes nothing.
/// - A tie joins the side of `a` and the side of `b` to one class: all its
///   members tie with each other and share one result against every key
///   outside, that of `a` and, where `a` has none, that of `b`.
/// - Another result is stored between every key on the side of `a` and
///   every key on the side of `b`, with its mirror.
///
/// In both cases the pair `(a, b)` has the inserted result afterwards. Where
/// that goes against what was stored for it, `b` has left its class.
pub open spec fn inserted_cell(
    r: Relation,
    a: Key,
    b: Key,
    m: CompareResult,
    x: Key,
    y: Key,
) -> Option<CompareResult> {
    if a == b || x == y {
        cell(r, x, y)
    } else if m == CompareResult::Same {
        if in_class(r, a, b, x) && in_class(r, a, b, y) {
            Some(CompareResult::Same)
        } else if in_class(r, a, b, x) {
            joint_cell(r, a, b, y)
        } else if in_class(r, a, b, y) {
            reversed_cell(joint_cell(r, a, b, x))
        } else {
            cell(r, x, y)
        }
    } else if side_a(r, a, b, x) && side_b(r, a, b, m, y) {
        Some(m)
    } else if side_b(r, a, b, m, x) && side_a(r, a, b, y) {
        Some(m.reversed())
    } else {
        cell(r, x, y)
    }
}

/// The relation after `insert(a, b, m)`.
pub open spec fn inserted(r: Relation, a: Key, b: Key, m: CompareResult) -> Relation {
    Map::new(
        |k: (Key, Key)| inserted_cell(r, a, b, m, k.0, k.1) is Some,
        |k: (Key, Key)| inserted_cell(r, a, b, m, k.0, k.1)->0,
    )
}

/// The groups that the cache holds after `insert(p1, p2, m)`, where `p1` and
/// `p2` are the members of the two groups and `r` is the relation before.
///
/// A key that the cache did not know gets the group it came with. A new tie
/// appends the group of the first key to the group of the second, and leaves
/// the first key with a group of itself alone.
pub open spec fn inserted_groups(
    g: Map<Key, Seq<Key>>,
    r: Relation,
    p1: Seq<Key>,
    p2: Seq<Key>,
    m: CompareResult,
) -> Map<Key, Seq<Key>> {
    let a = p1[0];
    let b = p2[0];
    let g1 = if g.dom().contains(a) {
        g
    } else {
        g.insert(a, p1)
    };
    let g2 = if g1.dom().contains(b) {
        g1
    } else {
        g1.insert(b, p2)
    };
    if a == b {
        g
    } else if m == CompareResult::Same && !tied(r, a, b) {
        g2.insert(b, g2[b] + g2[a]).insert(a, seq![a])
    } else {
        g2
    }
}

/// The relation without any pair that mentions `p`.
pub open spec fn removed(r: Relation, p: Key) -> Relation {
    Map::new(|k: (Key, Key)| r.dom().contains(k) && k.0 != p && k.1 != p, |k: (Key, Key)| r[k])
}

/// The stored cells of `inserted` are those of `inserted_cell`.
pub proof fn lemma_inserted_cell(r: Relation, a: Key, b: Key, m: CompareResult, x: Key, y: Key)
    ensures
        cell(inserted(r, a, b, m), x, y) == inserted_cell(r, a, b, m, x, y),
{
    let k = (x, y);
    assert(k.0 == x && k.1 == y);
}

/// Relations with the same cells are the same relation.
pub proof fn lemma_same_cells(r1: Relation, r2: Relation)
    requires
        forall|x: Key, y: Key| cell(r1, x, y) == cell(r2, x, y),
    ensures
        r1 == r2,
{
    assert forall|k: (Key, Key)| r1.dom().contains(k) == r2.dom().contains(k) by {
        assert(cell(r1, k.0, k.1) == cell(r2, k.0, k.1));
        assert(k == (k.0, k.1));
    }
    assert forall|k: (Key, Key)| r1.dom().contains(k) implies r1[k] == r2[k] by {
        assert(cell(r1, k.0, k.1) == cell(r2, k.0, k.1));
        assert(k == (k.0, k.1));
    }
    assert(r1 =~= r2);
}

/// In a closed relation being tied is an equivalence.
pub proof fn lemma_tied_equivalence(r: Relation, a: Key, b: Key, c: Key)
    requires
        closed(r),
    ensures
        tied(r, a, a),
        tied(r, a, b) ==> tied(r, b, a),
        tied(r, a, b) && tied(r, b, c) ==> tied(r, a, c),
{
    if tied(r, a, b) && a != b {
        assert(stored(r, a, b));
        assert(stored(r, b, a));
        if tied(r, b, c) && b != c && a != c {
            assert(stored(r, b, c));
            assert(tied(r, b, a) && stored(r, b, c));
        }
    }
}

/// Tied keys have the same stored results against any third key, in both
/// directions.
pub proof fn lemma_tied_rows_agree(r: Relation, a: Key, b: Key, z: Key)
    requires
        closed(r),
        tied(r, a, b),
        z != a,
        z != b,
    ensures
        cell(r, a, z) == cell(r, b, z),
        cell(r, z, a) == cell(r, z, b),
{
    lemma_tied_equivalence(r, a, b, z);
    if a != b {
        assert(stored(r, a, b) && stored(r, b, a));
        if stored(r, a, z) {
            assert(tied(r, a, b) && stored(r, a, z));
            assert(stored(r, z, a) && stored(r, z, b));
        }
        if stored(r, b, z) {
            assert(tied(r, b, a) && stored(r, b, z));
            assert(stored(r, z, a) && stored(r, z, b));
        }
        if stored(r, z, a) {
            assert(stored(r, a, z));
        }
        if stored(r, z, b) {
            assert(stored(r, b, z));
        }
    }
}

/// Whether `insert(a, b, m)` with a result other than a tie writes the cell
/// `(x, y)`.
pub open spec fn in_block(r: Relation, a: Key, b: Key, m: CompareResult, x: Key, y: Key) -> bool {
    (side_a(r, a, b, x) && side_b(r, a, b, m, y)) || (side_b(r, a, b, m, x) && side_a(r, a, b, y))
}

/// For a result other than a tie no key is on both sides.
pub proof fn lemma_sides_apart(r: Relation, a: Key, b: Key, m: CompareResult, x: Key)
    requires
        closed(r),
        a != b,
        m != CompareResult::Same,
    ensures
        !(side_a(r, a, b, x) && side_b(r, a, b, m, x)),
{
    lemma_tied_equivalence(r, a, x, b);
    lemma_tied_equivalence(r, b, x, a);
    lemma_tied_equivalence(r, a, b, a);
}

/// Keys that are tied, and that the insert leaves tied, are on the same
/// sides.
proof fn lemma_sides_of_tied(r: Relation, a: Key, b: Key, m: CompareResult, x: Key, y: Key)
    requires
        closed(r),
        a != b,
        tied(r, x, y),
        x != b,
        y != b,
    ensures
        side_a(r, a, b, x) == side_a(r, a, b, y),
        side_b(r, a, b, m, x) == side_b(r, a, b, m, y),
{
    lemma_tied_equivalence(r, x, y, a);
    lemma_tied_equivalence(r, y, x, a);
    lemma_tied_equivalence(r, a, x, y);
    lemma_tied_equivalence(r, a, y, x);
    lemma_tied_equivalence(r, b, x, y);
    lemma_tied_equivalence(r, b, y, x);
}

/// What the joined class knows about a key outside it does not depend on
/// which of two tied outside keys is asked about.
pub proof fn lemma_joint_of_tied(r: Relation, a: Key, b: Key, x: Key, y: Key)
    requires
        closed(r),
        a != b,
        tied(r, x, y),
        !in_class(r, a, b, x),
        !in_class(r, a, b, y),
    ensures
        joint_cell(r, a, b, x) == joint_cell(r, a, b, y),
{
    if x != y {
        lemma_tied_rows_agree(r, x, y, a);
        lemma_tied_rows_agree(r, x, y, b);
    }
}

/// A member of the joined class knows of a key outside it only what `a` or
/// `b` know.
pub proof fn lemma_member_cell(r: Relation, a: Key, b: Key, x: Key, z: Key)
    requires
        closed(r),
        a != b,
        in_class(r, a, b, x),
        !in_class(r, a, b, z),
        stored(r, x, z),
    ensures
        joint_cell(r, a, b, z) is Some,
{
    if tied(r, a, x) {
        if a != x {
            lemma_tied_rows_agree(r, a, x, z);
        }
    } else if x != b {
        lemma_tied_rows_agree(r, b, x, z);
    }
}

/// What the joined class knows about a key outside it is no tie.
proof fn lemma_joint_no_tie(r: Relation, a: Key, b: Key, z: Key)
    requires
        closed(r),
        a != b,
        !in_class(r, a, b, z),
    ensures
        joint_cell(r, a, b, z) != Some(CompareResult::Same),
{
    if !stored(r, a, z) && cell(r, b, z) == Some(CompareResult::Same) {
        // `z` is tied to `b`, so `b` goes alone: something is stored for
        // `(a, b)`, and then for `(a, z)` as well.
        assert(stored(r, a, b));
        lemma_tied_rows_agree(r, b, z, a);
    }
}

/// The ties that `insert` leaves behind. A tie joins the two sides and
/// parts the joined class from all other keys; another result parts the two
/// sides. All other ties stay.
pub proof fn lemma_inserted_ties(r: Relation, a: Key, b: Key, m: CompareResult, x: Key, y: Key)
    requires
        closed(r),
    ensures
        tied(inserted(r, a, b, m), x, y) == (if x == y {
            true
        } else if a == b {
            tied(r, x, y)
        } else if m == CompareResult::Same {
            (in_class(r, a, b, x) && in_class(r, a, b, y)) || (!in_class(r, a, b, x) && !in_class(
                r,
                a,
                b,
                y,
            ) && tied(r, x, y))
        } else {
            tied(r, x, y) && !in_block(r, a, b, m, x, y)
        }),
{
    lemma_inserted_cell(r, a, b, m, x, y);
    if x != y && a != b {
        if m == CompareResult::Same {
            if in_class(r, a, b, x) && !in_class(r, a, b, y) {
                lemma_joint_no_tie(r, a, b, y);
            }
            if !in_class(r, a, b, x) && in_class(r, a, b, y) {
                lemma_joint_no_tie(r, a, b, x);
            }
        }
    }
}

/// Inserting keeps every stored pair mirrored.
proof fn lemma_inserted_mirrored(r: Relation, a: Key, b: Key, m: CompareResult)
    requires
        closed(r),
    ensures
        mirrored(inserted(r, a, b, m)),
{
    let n = inserted(r, a, b, m);
    assert forall|x: Key, y: Key| #[trigger] stored(n, x, y) implies x != y && stored(n, y, x)
        && n[(y, x)] == n[(x, y)].reversed() by {
        lemma_inserted_cell(r, a, b, m, x, y);
        lemma_inserted_cell(r, a, b, m, y, x);
        if stored(r, x, y) {
            assert(stored(r, y, x));
        }
        if x != y && a != b && m != CompareResult::Same {
            lemma_sides_apart(r, a, b, m, x);
            lemma_sides_apart(r, a, b, m, y);
        }
    }
}

/// Inserting keeps tied keys in agreement on every third key.
proof fn lemma_inserted_tie_closed(r: Relation, a: Key, b: Key, m: CompareResult)
    requires
        closed(r),
    ensures
        tie_closed(inserted(r, a, b, m)),
{
    let n = inserted(r, a, b, m);
    assert forall|x: Key, y: Key, c: Key|
        #![trigger tied(n, x, y), stored(n, x, c)]
        tied(n, x, y) && stored(n, x, c) && y != c implies stored(n, y, c) && n[(y, c)] == n[(
        x,
        c,
    )] by {
        lemma_inserted_ties(r, a, b, m, x, y);
        lemma_inserted_cell(r, a, b, m, x, c);
        lemma_inserted_cell(r, a, b, m, y, c);
        lemma_inserted_mirrored(r, a, b, m);
        if x != y {
            if a == b {
                assert(tied(r, x, y) && stored(r, x, c));
            } else if m == CompareResult::Same {
                if !in_class(r, a, b, x) {
                    lemma_joint_of_tied(r, a, b, x, y);
                    if !in_class(r, a, b, c) {
                        assert(tied(r, x, y) && stored(r, x, c));
                    }
                }
            } else {
                // The tie of `x` and `y` was left, so neither is `b` with
                // the other on the side of `a`.
                lemma_sides_apart(r, a, b, m, x);
                lemma_sides_apart(r, a, b, m, y);
                lemma_sides_apart(r, a, b, m, c);
                lemma_tied_equivalence(r, x, y, x);
                lemma_tied_equivalence(r, a, x, y);
                lemma_tied_equivalence(r, a, y, x);
                lemma_tied_equivalence(r, b, x, y);
                lemma_tied_equivalence(r, b, y, x);
                lemma_tied_equivalence(r, a, b, x);
                lemma_tied_equivalence(r, a, b, y);
                if x != b && y != b {
                    lemma_sides_of_tied(r, a, b, m, x, y);
                }
                if !in_block(r, a, b, m, x, c) {
                    assert(tied(r, x, y) && stored(r, x, c));
                }
            }
        }
    }
}

/// Inserting into a closed relation gives a closed relation.
pub proof fn lemma_inserted_closed(r: Relation, a: Key, b: Key, m: CompareResult)
    requires
        closed(r),
    ensures
        closed(inserted(r, a, b, m)),
{
    lemma_inserted_mirrored(r, a, b, m);
    lemma_inserted_tie_closed(r, a, b, m);
}

/// Symmetry: what the cache answers for `(a, b)` is the reverse of what it
/// answers for `(b, a)`, and it answers both or neither.
pub proof fn law_symmetry(r: Relation, a: Key, b: Key)
    requires
        closed(r),
    ensures
        lookup(r, a, b) == reversed_cell(lookup(r, b, a)),
{
    if a != b {
        if stored(r, a, b) {
            assert(stored(r, b, a));
        }
        if stored(r, b, a) {
            assert(stored(r, a, b));
        }
    }
}

/// Reflexivity: a key ties with itself, whatever is stored.
pub proof fn law_reflexivity(r: Relation, a: Key)
    ensures
        lookup(r, a, a) == Some(CompareResult::Same),
{
}

/// What is inserted is what the cache answers: after `insert(a, b, m)` the
/// pair `(a, b)` has the result `m` and its mirror the reverse, whatever was
/// stored for them before.
pub proof fn law_insert_answers(r: Relation, a: Key, b: Key, m: CompareResult)
    requires
        closed(r),
    ensures
        a != b ==> lookup(inserted(r, a, b, m), a, b) == Some(m),
        a != b ==> lookup(inserted(r, a, b, m), b, a) == Some(m.reversed()),
        a == b ==> lookup(inserted(r, a, b, m), a, b) == Some(CompareResult::Same),
{
    lemma_inserted_cell(r, a, b, m, a, b);
    lemma_inserted_cell(r, a, b, m, b, a);
}

/// Inserting never takes an answer away: a pair that the cache answered
/// before is answered afterwards.
pub proof fn law_answers_persist(r: Relation, a: Key, b: Key, m: CompareResult, x: Key, y: Key)
    requires
        closed(r),
        lookup(r, x, y) is Some,
    ensures
        lookup(inserted(r, a, b, m), x, y) is Some,
{
    lemma_inserted_cell(r, a, b, m, x, y);
    if x != y && a != b && m == CompareResult::Same {
        assert(stored(r, y, x));
        if in_class(r, a, b, x) && !in_class(r, a, b, y) {
            lemma_member_cell(r, a, b, x, y);
        }
        if in_class(r, a, b, y) && !in_class(r, a, b, x) {
            lemma_member_cell(r, a, b, y, x);
        }
    }
}

/// An answer for one pair is an answer for every pair of keys tied to them:
/// ties are stored in full, never derived when asked.
pub proof fn law_tied_pairs_answered(r: Relation, a: Key, b: Key, x: Key, y: Key)
    requires
        closed(r),
        tied(r, a, x),
        tied(r, b, y),
        lookup(r, a, b) is Some,
    ensures
        lookup(r, x, y) is Some,
        !tied(r, a, b) ==> lookup(r, x, y) == lookup(r, a, b),
        tied(r, a, b) ==> lookup(r, x, y) == Some(CompareResult::Same),
{
    lemma_tied_equivalence(r, a, x, a);
    lemma_tied_equivalence(r, b, y, b);
    lemma_tied_equivalence(r, x, a, b);
    lemma_tied_equivalence(r, x, b, y);
    lemma_tied_equivalence(r, a, x, y);
    lemma_tied_equivalence(r, a, y, b);
    if x != y && !tied(r, a, b) {
        assert(x != b);
        assert(y != a);
        if a != x {
            lemma_tied_rows_agree(r, a, x, b);
        }
        if b != y {
            lemma_tied_rows_agree(r, b, y, x);
        }
    }
}

/// A result reaches the keys tied to the first key: with `a` tied to `b`,
/// after `insert(a, c, m)` the cache answers `m` for `(a, c)` and for
/// `(b, c)`, and the reversed result for `(c, b)`, whatever it held for
/// these pairs before.
pub proof fn law_result_reaches_tied(r: Relation, a: Key, b: Key, c: Key, m: CompareResult)
    requires
        closed(r),
        tied(r, a, b),
        a != b,
        a != c,
        b != c,
    ensures
        lookup(inserted(r, a, c, m), a, c) == Some(m),
        lookup(inserted(r, a, c, m), b, c) == Some(m),
        lookup(inserted(r, a, c, m), c, b) == Some(m.reversed()),
{
    lemma_inserted_cell(r, a, c, m, b, c);
    lemma_inserted_closed(r, a, c, m);
    law_insert_answers(r, a, c, m);
    law_symmetry(inserted(r, a, c, m), b, c);
}

/// Transitive ties, first the tie: after `insert(a, b, Same)` and then
/// `insert(a, c, m)` the cache answers `m` for `(b, c)`, though no insert
/// named `b` and `c` together.
pub proof fn law_tie_then_result(r: Relation, a: Key, b: Key, c: Key, m: CompareResult)
    requires
        closed(r),
        a != b,
        a != c,
        b != c,
    ensures
        lookup(inserted(inserted(r, a, b, CompareResult::Same), a, c, m), b, c) == Some(m),
        lookup(inserted(inserted(r, a, b, CompareResult::Same), a, c, m), c, b) == Some(
            m.reversed(),
        ),
        lookup(inserted(inserted(r, a, b, CompareResult::Same), a, c, m), a, c) == Some(m),
{
    let r1 = inserted(r, a, b, CompareResult::Same);
    lemma_inserted_closed(r, a, b, CompareResult::Same);
    law_insert_answers(r, a, b, CompareResult::Same);
    assert(tied(r1, a, b));
    lemma_inserted_cell(r1, a, c, m, b, c);
    let r2 = inserted(r1, a, c, m);
    lemma_inserted_closed(r1, a, c, m);
    law_insert_answers(r1, a, c, m);
    law_symmetry(r2, b, c);
}

/// Transitive ties, first the result: after `insert(a, c, m)` and then
/// `insert(a, b, Same)` the cache answers `m` for `(b, c)` as well.
pub proof fn law_result_then_tie(r: Relation, a: Key, b: Key, c: Key, m: CompareResult)
    requires
        closed(r),
        a != b,
        a != c,
        b != c,
    ensures
        lookup(inserted(inserted(r, a, c, m), a, b, CompareResult::Same), b, c) == Some(m),
        lookup(inserted(inserted(r, a, c, m), a, b, CompareResult::Same), c, b) == Some(
            m.reversed(),
        ),
{
    let r1 = inserted(r, a, c, m);
    lemma_inserted_closed(r, a, c, m);
    law_insert_answers(r, a, c, m);
    assert(cell(r1, a, c) == Some(m));
    lemma_inserted_cell(r1, a, b, CompareResult::Same, b, c);
    if m != CompareResult::Same && tied(r1, b, c) {
        // Then `b` has the result of `c` against `a`, which is no tie, and
        // goes alone.
        lemma_tied_rows_agree(r1, c, b, a);
    }
    let r2 = inserted(r1, a, b, CompareResult::Same);
    lemma_inserted_closed(r1, a, b, CompareResult::Same);
    law_symmetry(r2, b, c);
}

/// Removing a key keeps a relation closed.
pub proof fn lemma_removed_closed(r: Relation, p: Key)
    requires
        closed(r),
    ensures
        closed(removed(r, p)),
{
    let n = removed(r, p);
    assert forall|x: Key, y: Key| #[trigger] stored(n, x, y) implies x != y && stored(n, y, x)
        && n[(y, x)] == n[(x, y)].reversed() by {
        assert(n.dom().contains((x, y)));
        assert(stored(r, x, y));
        assert(r.dom().contains((y, x)));
        assert(n.dom().contains((y, x)));
    }
    assert forall|x: Key, y: Key, c: Key|
        #![trigger tied(n, x, y), stored(n, x, c)]
        tied(n, x, y) && stored(n, x, c) && y != c implies stored(n, y, c) && n[(y, c)] == n[(
        x,
        c,
    )] by {
        if x != y {
            assert(n.dom().contains((x, y)));
            assert(n.dom().contains((x, c)));
            assert(tied(r, x, y) && stored(r, x, c));
            assert(r.dom().contains((y, c)));
            assert(n.dom().contains((y, c)));
        }
    }
}

} // verus!
