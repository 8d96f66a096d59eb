//! How the sorter and the cache fit together: what the sorter asks once the
//! order is complete is what the cache can answer.

use crate::compare::CompareResult;
use crate::event::EventView;
use crate::ordpaths::Key;
use crate::relation::{
    closed, inserted, law_answers_persist, law_insert_answers, law_symmetry, lookup, Relation,
};
use crate::sort::{lemma_advance_wf, lemma_silent_moves, SortState, Stage};
use vstd::prelude::*;

verus! {

/// Whether the cache `r` can answer for every group of the order and its
/// neighbour, and for the group being placed and the groups next to its
/// place as far as it was compared to them.
pub open spec fn linked(s: SortState, r: Relation) -> bool {
    &&& forall|i: int|
        0 <= i < s.sorted.len() - 1 ==> lookup(
            r,
            (#[trigger] s.sorted[i + 1])[0],
            s.sorted[i][0],
        ) is Some
    &&& s.stage == Stage::Inserting && s.queue.len() > 0 ==> {
        &&& 0 < s.lo ==> lookup(r, s.cur()[0], s.sorted[s.lo - 1][0]) is Some
        &&& s.hi < s.sorted.len() ==> lookup(r, s.cur()[0], s.sorted[s.hi][0]) is Some
    }
}

/// Whether the cache `after` answers all that the cache `before` answered.
pub open spec fn keeps_answers(before: Relation, after: Relation) -> bool {
    forall|x: Key, y: Key|
        #![trigger lookup(before, x, y)]
        #![trigger lookup(after, x, y)]
        lookup(before, x, y) is Some ==> lookup(after, x, y) is Some
}

/// Storing a judgement keeps all answers and answers for the judged pair:
/// what the resolver does with the human's answer is what
/// `law_answer_keeps_links` asks of the cache.
pub proof fn law_insert_keeps_answers(r: Relation, a: Key, b: Key, m: CompareResult)
    requires
        closed(r),
    ensures
        keeps_answers(r, inserted(r, a, b, m)),
        lookup(inserted(r, a, b, m), a, b) is Some,
{
    law_insert_answers(r, a, b, m);
    assert forall|x: Key, y: Key| lookup(r, x, y) is Some implies lookup(
        inserted(r, a, b, m),
        x,
        y,
    ) is Some by {
        law_answers_persist(r, a, b, m, x, y);
    }
}

/// Placing and merging keep the links.
proof fn lemma_silent_moves_linked(s: SortState, r: Relation)
    requires
        s.wf(),
        closed(r),
        s.stage == Stage::Inserting,
        !s.awaiting,
        s.queue.len() > 0,
        linked(s, r),
    ensures
        s.lo >= s.hi ==> linked(s.placed(), r),
        s.lo < s.hi && s.cur()[0] == s.sorted[s.mid()][0] ==> linked(s.merged(), r),
{
    let c = s.cur();
    if s.lo >= s.hi {
        let n = s.placed();
        assert forall|i: int| 0 <= i < n.sorted.len() implies #[trigger] n.sorted[i] == (if i
            < s.lo {
            s.sorted[i]
        } else if i == s.lo {
            c
        } else {
            s.sorted[i - 1]
        }) by {}
        assert forall|i: int| 0 <= i < n.sorted.len() - 1 implies lookup(
            r,
            (#[trigger] n.sorted[i + 1])[0],
            n.sorted[i][0],
        ) is Some by {
            if i + 1 < s.lo {
                assert(lookup(r, s.sorted[i + 1][0], s.sorted[i][0]) is Some);
            } else if i + 1 == s.lo {
            } else if i == s.lo {
                law_symmetry(r, c[0], s.sorted[s.lo][0]);
            } else {
                assert(lookup(r, s.sorted[i - 1 + 1][0], s.sorted[i - 1][0]) is Some);
            }
        }
    }
    if s.lo < s.hi && c[0] == s.sorted[s.mid()][0] {
        let n = s.merged();
        assert forall|i: int| 0 <= i < n.sorted.len() implies (#[trigger] n.sorted[i])[0]
            == s.sorted[i][0] by {
            assert(s.sorted[i].len() > 0);
        }
        assert forall|i: int| 0 <= i < n.sorted.len() - 1 implies lookup(
            r,
            (#[trigger] n.sorted[i + 1])[0],
            n.sorted[i][0],
        ) is Some by {
            assert(lookup(r, s.sorted[i + 1][0], s.sorted[i][0]) is Some);
        }
    }
}

/// What the sorter does without asking keeps the links.
proof fn lemma_advance_linked(s: SortState, r: Relation)
    requires
        s.wf(),
        closed(r),
        linked(s, r),
    ensures
        linked(s.advance(), r),
    decreases s.queue.len(),
{
    if s.stage != Stage::Inserting || s.awaiting || s.queue.len() == 0 {
    } else if s.lo >= s.hi {
        lemma_silent_moves(s);
        lemma_silent_moves_linked(s, r);
        lemma_advance_linked(s.placed(), r);
    } else if s.cur()[0] == s.sorted[s.mid()][0] {
        lemma_silent_moves(s);
        lemma_silent_moves_linked(s, r);
        lemma_advance_linked(s.merged(), r);
    } else {
    }
}

/// Asking for the next request keeps the links between sorter and cache.
pub proof fn law_poll_keeps_links(s: SortState, r: Relation)
    requires
        s.wf(),
        !s.awaiting,
        closed(r),
        linked(s, r),
    ensures
        linked(s.polled(), r),
{
    lemma_advance_wf(s);
    lemma_advance_linked(s, r);
}

/// An answer keeps the links: if the cache `after` the answer still answers
/// all that the cache `before` answered, and answers for the pair that was
/// asked, the sorter in its next state is linked to it. A resolver that
/// answers from its cache, and stores what the human says, gives such a
/// cache.
pub proof fn law_answer_keeps_links(s: SortState, m: CompareResult, before: Relation,
    after: Relation)
    requires
        s.wf(),
        s.awaiting,
        closed(before),
        closed(after),
        linked(s, before),
        keeps_answers(before, after),
        s.stage == Stage::Inserting ==> lookup(after, s.cur()[0], s.sorted[s.mid()][0]) is Some,
    ensures
        linked(s.answered(m), after),
{
    let n = s.answered(m);
    if s.stage == Stage::Inserting && m.value() == 0 {
        assert forall|i: int| 0 <= i < n.sorted.len() implies (#[trigger] n.sorted[i])[0]
            == s.sorted[i][0] by {
            assert(s.sorted[i].len() > 0);
        }
        assert forall|i: int| 0 <= i < n.sorted.len() - 1 implies lookup(
            after,
            (#[trigger] n.sorted[i + 1])[0],
            n.sorted[i][0],
        ) is Some by {
            assert(lookup(before, s.sorted[i + 1][0], s.sorted[i][0]) is Some);
        }
    } else {
        assert forall|i: int| 0 <= i < n.sorted.len() - 1 implies lookup(
            after,
            (#[trigger] n.sorted[i + 1])[0],
            n.sorted[i][0],
        ) is Some by {
            assert(lookup(before, s.sorted[i + 1][0], s.sorted[i][0]) is Some);
        }
        if s.stage == Stage::Inserting {
            if 0 < s.lo {
                assert(lookup(before, s.cur()[0], s.sorted[s.lo - 1][0]) is Some);
            }
            if s.hi < s.sorted.len() {
                assert(lookup(before, s.cur()[0], s.sorted[s.hi][0]) is Some);
            }
        }
    }
}

/// Once the order is complete, nothing new is asked: every comparison that
/// the sorter requests while scoring is one that the cache can answer, so a
/// resolver that drains never misses.
pub proof fn law_scoring_hits(s: SortState, r: Relation)
    requires
        s.wf(),
        !s.awaiting,
        s.stage == Stage::Scoring,
        linked(s, r),
    ensures
        s.request() matches Some(EventView::Compare(a, b)) ==> lookup(r, a[0], b[0]) is Some,
{
    let n = s.seeded().len() as int;
    if n < s.sorted.len() {
        assert(lookup(r, s.sorted[n - 1 + 1][0], s.sorted[n - 1][0]) is Some);
    }
}

/// A binary search: each answer that is no tie leaves at most half of the
/// places that the group being placed could have.
pub proof fn law_window_halves(s: SortState, m: CompareResult)
    requires
        s.wf(),
        s.awaiting,
        s.stage == Stage::Inserting,
        m.value() != 0,
    ensures
        s.answered(m).hi - s.answered(m).lo <= (s.hi - s.lo) / 2,
        s.answered(m).queue == s.queue,
        s.answered(m).sorted == s.sorted,
{
}

} // verus!
