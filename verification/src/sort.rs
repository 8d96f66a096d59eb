//! The sorting side: a binary insertion sort that can be paused at every
//! comparison, followed by the pass that turns the order into scores.
//!
//! The sorter never compares by itself. It hands out one request at a time
//! and goes on when the answer comes back, so that whoever drives it decides
//! where answers come from.

use crate::compare::CompareResult;
use crate::event::{Event, EventView};
use crate::ordpaths::{Key, OrdPaths};
use vstd::prelude::*;

verus! {

/// The phase of a sorter.
#[derive(Debug, Clone, Copy, PartialEq, Eq, Structural)]
pub enum Stage {
    /// Groups are being inserted into the order.
    Inserting,
    /// The order is complete and neighbours are asked for their distance.
    Scoring,
    /// Order and scores are complete.
    Done,
}

/// The most groups a sorter takes: with more, a score could leave `i64`.
pub const MAX_ITEMS: u64 = 0x3fff_ffff_ffff_ffff;

/// The state of a sorter as a mathematical value.
pub struct SortState {
    /// The groups placed so far, worst first.
    pub sorted: Seq<Seq<Key>>,
    /// The groups still to place; the first is being placed.
    pub queue: Seq<Seq<Key>>,
    /// The group being placed belongs at an index from `lo` ...
    pub lo: int,
    /// ... to `hi`.
    pub hi: int,
    pub stage: Stage,
    /// The scores of the first groups of `sorted`.
    pub scores: Seq<int>,
    /// Whether a comparison was requested and not answered yet.
    pub awaiting: bool,
}

impl SortState {
    /// The state of a sorter that was given `items`.
    pub open spec fn start(items: Seq<Seq<Key>>) -> SortState {
        SortState {
            sorted: Seq::empty(),
            queue: items,
            lo: 0,
            hi: 0,
            stage: Stage::Inserting,
            scores: Seq::empty(),
            awaiting: false,
        }
    }

    /// The group being placed.
    pub open spec fn cur(self) -> Seq<Key> {
        self.queue[0]
    }

    /// The index of the placed group that the current one is compared to.
    pub open spec fn mid(self) -> int {
        self.lo + (self.hi - self.lo) / 2
    }

    /// The invariant of a sorter.
    pub open spec fn wf(self) -> bool {
        &&& forall|i: int| 0 <= i < self.sorted.len() ==> (#[trigger] self.sorted[i]).len() > 0
        &&& forall|i: int| 0 <= i < self.queue.len() ==> (#[trigger] self.queue[i]).len() > 0
        &&& self.sorted.len() + self.queue.len() <= MAX_ITEMS
        &&& 0 <= self.lo <= self.hi <= self.sorted.len()
        &&& self.scores.len() <= self.sorted.len()
        &&& forall|i: int|
            0 <= i < self.scores.len() ==> -2 * i <= (#[trigger] self.scores[i]) <= 2 * i
        &&& match self.stage {
            Stage::Inserting => {
                &&& self.scores.len() == 0
                &&& self.awaiting ==> self.queue.len() > 0 && self.lo < self.hi && self.cur()[0]
                    != self.sorted[self.mid()][0]
            },
            Stage::Scoring => {
                &&& self.queue.len() == 0
                &&& self.awaiting ==> 0 < self.scores.len() < self.sorted.len()
            },
            Stage::Done => {
                &&& self.queue.len() == 0
                &&& !self.awaiting
                &&& self.scores.len() == self.sorted.len()
            },
        }
    }

    /// The current group placed at `lo`, the next group taken up.
    pub open spec fn placed(self) -> SortState {
        SortState {
            sorted: self.sorted.insert(self.lo, self.cur()),
            queue: self.queue.drop_first(),
            lo: 0,
            hi: self.sorted.len() as int + 1,
            ..self
        }
    }

    /// The current group merged into the group it was compared to, the next
    /// group taken up.
    pub open spec fn merged(self) -> SortState {
        SortState {
            sorted: self.sorted.update(self.mid(), self.sorted[self.mid()] + self.cur()),
            queue: self.queue.drop_first(),
            lo: 0,
            hi: self.sorted.len() as int,
            awaiting: false,
            ..self
        }
    }

    /// What the sorter does without asking: it places a group whose place is
    /// found and merges a group into one with the same canonical key.
    pub open spec fn advance(self) -> SortState
        decreases self.queue.len(),
    {
        if self.stage != Stage::Inserting || self.awaiting || self.queue.len() == 0 {
            self
        } else if self.lo >= self.hi {
            self.placed().advance()
        } else if self.cur()[0] == self.sorted[self.mid()][0] {
            self.merged().advance()
        } else {
            self
        }
    }

    /// The scores once the first group has its score of zero.
    pub open spec fn seeded(self) -> Seq<int> {
        if self.scores.len() == 0 && self.sorted.len() > 0 {
            seq![0int]
        } else {
            self.scores
        }
    }

    /// The state after the sorter was asked for its next request.
    pub open spec fn polled(self) -> SortState {
        match self.stage {
            Stage::Inserting => {
                let a = self.advance();
                if a.queue.len() == 0 {
                    SortState { stage: Stage::Scoring, lo: 0, hi: 0, ..a }
                } else {
                    SortState { awaiting: true, ..a }
                }
            },
            Stage::Scoring => {
                if self.seeded().len() >= self.sorted.len() {
                    SortState { stage: Stage::Done, scores: self.seeded(), ..self }
                } else {
                    SortState { scores: self.seeded(), awaiting: true, ..self }
                }
            },
            Stage::Done => self,
        }
    }

    /// The request that the sorter makes when asked for its next one, or
    /// `None` when it is done.
    pub open spec fn request(self) -> Option<EventView> {
        match self.stage {
            Stage::Inserting => {
                let a = self.advance();
                if a.queue.len() == 0 {
                    Some(EventView::Finished)
                } else {
                    Some(EventView::Compare(a.cur(), a.sorted[a.mid()]))
                }
            },
            Stage::Scoring => {
                let n = self.seeded().len() as int;
                if n >= self.sorted.len() {
                    Some(EventView::Finished)
                } else {
                    Some(EventView::Compare(self.sorted[n], self.sorted[n - 1]))
                }
            },
            Stage::Done => None,
        }
    }

    /// The state after the answer `m` to the request that is open.
    ///
    /// While inserting only the sign of the answer counts: a better group
    /// goes above the one it was compared to, a worse one below, a tie is
    /// merged into it. While scoring the full weight is added to the score
    /// of the group below.
    pub open spec fn answered(self, m: CompareResult) -> SortState {
        match self.stage {
            Stage::Inserting => {
                if m.value() > 0 {
                    SortState { lo: self.mid() + 1, awaiting: false, ..self }
                } else if m.value() < 0 {
                    SortState { hi: self.mid(), awaiting: false, ..self }
                } else {
                    self.merged()
                }
            },
            Stage::Scoring => SortState {
                scores: self.scores.push(self.scores.last() + m.value()),
                awaiting: false,
                ..self
            },
            Stage::Done => self,
        }
    }

    /// Whether `x` is a member of a group that the sorter holds.
    pub open spec fn holds(self, x: Key) -> bool {
        ||| exists|i: int| 0 <= i < self.sorted.len() && (#[trigger] self.sorted[i]).contains(x)
        ||| exists|i: int| 0 <= i < self.queue.len() && (#[trigger] self.queue[i]).contains(x)
    }
}

/// The members of each group of a list.
pub open spec fn groups_of(s: Seq<OrdPaths>) -> Seq<Seq<Key>> {
    Seq::new(s.len(), |i: int| s[i]@)
}

/// Placing and merging keep the invariant.
pub proof fn lemma_silent_moves(s: SortState)
    requires
        s.wf(),
        s.stage == Stage::Inserting,
        s.queue.len() > 0,
    ensures
        s.lo >= s.hi && !s.awaiting ==> s.placed().wf(),
        s.lo < s.hi ==> s.merged().wf(),
{
    if s.lo >= s.hi && !s.awaiting {
        let n = s.placed();
        assert forall|i: int| 0 <= i < n.sorted.len() implies (#[trigger] n.sorted[i]).len()
            > 0 by {
            if i < s.lo {
                assert(n.sorted[i] == s.sorted[i]);
            } else if i == s.lo {
                assert(n.sorted[i] == s.queue[0]);
            } else {
                assert(n.sorted[i] == s.sorted[i - 1]);
            }
        }
        assert forall|i: int| 0 <= i < n.queue.len() implies (#[trigger] n.queue[i]).len()
            > 0 by {
            assert(n.queue[i] == s.queue[i + 1]);
        }
    }
    if s.lo < s.hi {
        let n = s.merged();
        assert forall|i: int| 0 <= i < n.sorted.len() implies (#[trigger] n.sorted[i]).len()
            > 0 by {
            if i != s.mid() {
                assert(n.sorted[i] == s.sorted[i]);
            } else {
                assert(s.sorted[i].len() > 0);
            }
        }
        assert forall|i: int| 0 <= i < n.queue.len() implies (#[trigger] n.queue[i]).len()
            > 0 by {
            assert(n.queue[i] == s.queue[i + 1]);
        }
    }
}

/// What the sorter does without asking keeps the invariant.
pub proof fn lemma_advance_wf(s: SortState)
    requires
        s.wf(),
    ensures
        s.advance().wf(),
        s.advance().stage == s.stage,
        s.advance().awaiting == s.awaiting,
        s.advance().scores == s.scores,
        s.stage == Stage::Inserting && !s.awaiting && s.advance().queue.len() > 0 ==> s.advance().lo
            < s.advance().hi && s.advance().cur()[0] != s.advance().sorted[s.advance().mid()][0],
    decreases s.queue.len(),
{
    if s.stage != Stage::Inserting || s.awaiting || s.queue.len() == 0 {
    } else if s.lo >= s.hi {
        lemma_silent_moves(s);
        lemma_advance_wf(s.placed());
    } else if s.cur()[0] == s.sorted[s.mid()][0] {
        lemma_silent_moves(s);
        lemma_advance_wf(s.merged());
    } else {
    }
}

/// Asking for the next request keeps the invariant, and a comparison is
/// open afterwards exactly when the request is one.
pub proof fn lemma_polled_wf(s: SortState)
    requires
        s.wf(),
        !s.awaiting,
    ensures
        s.polled().wf(),
        s.polled().awaiting == (s.request() matches Some(EventView::Compare(_, _))),
        s.request() matches Some(EventView::Compare(a, b)) ==> a.len() > 0 && b.len() > 0,
{
    match s.stage {
        Stage::Inserting => {
            lemma_advance_wf(s);
        },
        Stage::Scoring => {},
        Stage::Done => {},
    }
}

/// An answer keeps the invariant and closes the comparison.
pub proof fn lemma_answered_wf(s: SortState, m: CompareResult)
    requires
        s.wf(),
        s.awaiting,
    ensures
        s.answered(m).wf(),
        !s.answered(m).awaiting,
{
    match s.stage {
        Stage::Inserting => {
            if m.value() == 0 {
                lemma_silent_moves(s);
            }
        },
        Stage::Scoring => {
            let n = s.answered(m);
            let k = s.scores.len() as int;
            assert forall|i: int| 0 <= i < n.scores.len() implies -2 * i <= (
            #[trigger] n.scores[i]) <= 2 * i by {
                if i < k {
                    assert(n.scores[i] == s.scores[i]);
                } else {
                    assert(n.scores[i] == s.scores[k - 1] + m.value());
                }
            }
        },
        Stage::Done => {},
    }
}

/// How far a phase is from the end of the run.
pub open spec fn stage_rank(stage: Stage) -> nat {
    match stage {
        Stage::Inserting => 2,
        Stage::Scoring => 1,
        Stage::Done => 0,
    }
}

/// What the sorter does without asking uses up groups of the queue, or
/// changes nothing.
pub proof fn lemma_advance_progress(s: SortState)
    requires
        s.wf(),
    ensures
        s.advance().queue.len() <= s.queue.len(),
        s.advance().queue.len() == s.queue.len() ==> s.advance() == s,
    decreases s.queue.len(),
{
    if s.stage != Stage::Inserting || s.awaiting || s.queue.len() == 0 {
    } else if s.lo >= s.hi {
        lemma_silent_moves(s);
        lemma_advance_progress(s.placed());
    } else if s.cur()[0] == s.sorted[s.mid()][0] {
        lemma_silent_moves(s);
        lemma_advance_progress(s.merged());
    } else {
    }
}

/// Every request brings the run nearer to its end: `Finished` ends a phase,
/// and a comparison, once answered, narrows the place of the current group,
/// uses up the queue, or adds a score.
pub proof fn law_progress(s: SortState, m: CompareResult)
    requires
        s.wf(),
        !s.awaiting,
    ensures
        s.request() == Some(EventView::Finished) ==> stage_rank(s.polled().stage) < stage_rank(
            s.stage,
        ),
        s.request() matches Some(EventView::Compare(_, _)) ==> {
            let n = s.polled().answered(m);
            &&& n.stage == s.stage
            &&& n.queue.len() <= s.queue.len()
            &&& s.stage == Stage::Inserting && n.queue.len() == s.queue.len() ==> n.hi - n.lo
                < s.hi - s.lo
            &&& s.stage == Stage::Scoring ==> n.sorted.len() - n.scores.len() < s.sorted.len()
                - s.scores.len()
        },
{
    lemma_advance_wf(s);
    lemma_advance_progress(s);
    lemma_polled_wf(s);
}

/// Whether all members of the group `g` have the rank of its key.
pub open spec fn uniform(g: Seq<Key>, rank: spec_fn(Key) -> int) -> bool {
    forall|j: int| 0 <= j < g.len() ==> rank(#[trigger] g[j]) == rank(g[0])
}

/// Whether the answer `m` for `(a, b)` has the sign that `rank` gives.
pub open spec fn agrees(m: CompareResult, rank: spec_fn(Key) -> int, a: Key, b: Key) -> bool {
    &&& m.value() > 0 <==> rank(a) > rank(b)
    &&& m.value() < 0 <==> rank(a) < rank(b)
}

/// Whether the scores rise strictly.
pub open spec fn rising(scores: Seq<int>) -> bool {
    forall|i: int, j: int| 0 <= i < j < scores.len() ==> scores[i] < scores[j]
}

impl SortState {
    /// Whether the state is in order by `rank`: groups are uniform, the
    /// placed groups rise strictly, and the group being placed belongs
    /// between `lo` and `hi`.
    pub open spec fn ordered_by(self, rank: spec_fn(Key) -> int) -> bool {
        &&& forall|i: int| 0 <= i < self.sorted.len() ==> uniform(#[trigger] self.sorted[i], rank)
        &&& forall|i: int| 0 <= i < self.queue.len() ==> uniform(#[trigger] self.queue[i], rank)
        &&& forall|i: int, j: int|
            0 <= i < j < self.sorted.len() ==> rank((#[trigger] self.sorted[i])[0]) < rank(
                (#[trigger] self.sorted[j])[0],
            )
        &&& self.stage == Stage::Inserting && self.queue.len() > 0 ==> {
            &&& forall|i: int|
                0 <= i < self.lo ==> rank((#[trigger] self.sorted[i])[0]) < rank(self.cur()[0])
            &&& forall|i: int|
                self.hi <= i < self.sorted.len() ==> rank(self.cur()[0]) < rank(
                    (#[trigger] self.sorted[i])[0],
                )
        }
    }
}

/// Placing and merging keep the order.
proof fn lemma_silent_moves_order(s: SortState, rank: spec_fn(Key) -> int)
    requires
        s.wf(),
        s.stage == Stage::Inserting,
        s.queue.len() > 0,
        s.ordered_by(rank),
    ensures
        s.lo >= s.hi ==> s.placed().ordered_by(rank),
        s.lo < s.hi && rank(s.cur()[0]) == rank(s.sorted[s.mid()][0]) ==> s.merged().ordered_by(
            rank,
        ),
{
    let c = s.cur();
    if s.lo >= s.hi {
        let n = s.placed();
        assert forall|i: int| 0 <= i < n.sorted.len() implies #[trigger] n.sorted[i] == (if i
            < s.lo {
            s.sorted[i]
        } else if i == s.lo {
            c
        } else {
            s.sorted[i - 1]
        }) by {}
        assert forall|i: int| 0 <= i < n.queue.len() implies #[trigger] n.queue[i] == s.queue[i
            + 1] by {}
        assert forall|i: int| 0 <= i < n.sorted.len() implies uniform(
            #[trigger] n.sorted[i],
            rank,
        ) by {
            if i < s.lo {
                assert(uniform(s.sorted[i], rank));
            } else if i == s.lo {
                assert(uniform(s.queue[0], rank));
            } else {
                assert(uniform(s.sorted[i - 1], rank));
            }
        }
        assert forall|i: int| 0 <= i < n.queue.len() implies uniform(
            #[trigger] n.queue[i],
            rank,
        ) by {
            assert(uniform(s.queue[i + 1], rank));
        }
        assert forall|i: int, j: int| 0 <= i < j < n.sorted.len() implies rank(
            (#[trigger] n.sorted[i])[0],
        ) < rank((#[trigger] n.sorted[j])[0]) by {
            let oi = if i < s.lo {
                i
            } else {
                i - 1
            };
            let oj = if j < s.lo {
                j
            } else {
                j - 1
            };
            if i != s.lo && j != s.lo {
                assert(rank(s.sorted[oi][0]) < rank(s.sorted[oj][0]));
            } else if i == s.lo {
                assert(rank(c[0]) < rank(s.sorted[oj][0]));
            } else {
                assert(rank(s.sorted[oi][0]) < rank(c[0]));
            }
        }
    }
    if s.lo < s.hi && rank(c[0]) == rank(s.sorted[s.mid()][0]) {
        let n = s.merged();
        let m = s.mid();
        assert forall|i: int| 0 <= i < n.queue.len() implies #[trigger] n.queue[i] == s.queue[i
            + 1] by {}
        assert forall|i: int| 0 <= i < n.sorted.len() implies (#[trigger] n.sorted[i])[0]
            == s.sorted[i][0] by {
            assert(s.sorted[i].len() > 0);
        }
        assert forall|i: int| 0 <= i < n.sorted.len() implies uniform(
            #[trigger] n.sorted[i],
            rank,
        ) by {
            assert(uniform(s.sorted[i], rank));
            if i == m {
                assert(uniform(s.queue[0], rank));
                let g = s.sorted[m];
                assert forall|j: int| 0 <= j < n.sorted[i].len() implies rank(
                    #[trigger] n.sorted[i][j],
                ) == rank(n.sorted[i][0]) by {
                    if j < g.len() {
                        assert(n.sorted[i][j] == g[j]);
                    } else {
                        assert(n.sorted[i][j] == c[j - g.len()]);
                    }
                }
            }
        }
        assert forall|i: int| 0 <= i < n.queue.len() implies uniform(
            #[trigger] n.queue[i],
            rank,
        ) by {
            assert(uniform(s.queue[i + 1], rank));
        }
        assert forall|i: int, j: int| 0 <= i < j < n.sorted.len() implies rank(
            (#[trigger] n.sorted[i])[0],
        ) < rank((#[trigger] n.sorted[j])[0]) by {
            assert(rank(s.sorted[i][0]) < rank(s.sorted[j][0]));
        }
    }
}

/// What the sorter does without asking keeps the order.
proof fn lemma_advance_order(s: SortState, rank: spec_fn(Key) -> int)
    requires
        s.wf(),
        s.ordered_by(rank),
    ensures
        s.advance().ordered_by(rank),
    decreases s.queue.len(),
{
    if s.stage != Stage::Inserting || s.awaiting || s.queue.len() == 0 {
    } else if s.lo >= s.hi {
        lemma_silent_moves(s);
        lemma_silent_moves_order(s, rank);
        lemma_advance_order(s.placed(), rank);
    } else if s.cur()[0] == s.sorted[s.mid()][0] {
        lemma_silent_moves(s);
        lemma_silent_moves_order(s, rank);
        lemma_advance_order(s.merged(), rank);
    } else {
    }
}

/// Sorting is sound: asking for the next request keeps the state in order
/// by any ranking.
pub proof fn law_poll_keeps_order(s: SortState, rank: spec_fn(Key) -> int)
    requires
        s.wf(),
        !s.awaiting,
        s.ordered_by(rank),
    ensures
        s.polled().ordered_by(rank),
{
    lemma_advance_wf(s);
    lemma_advance_order(s, rank);
}

/// Sorting is sound: an answer whose sign agrees with a ranking keeps the
/// state in order by that ranking. With such answers throughout, the final
/// order therefore rises strictly by rank.
pub proof fn law_answer_keeps_order(s: SortState, m: CompareResult, rank: spec_fn(Key) -> int)
    requires
        s.wf(),
        s.awaiting,
        s.ordered_by(rank),
        s.stage == Stage::Inserting ==> agrees(m, rank, s.cur()[0], s.sorted[s.mid()][0]),
    ensures
        s.answered(m).ordered_by(rank),
{
    if s.stage == Stage::Inserting {
        let n = s.answered(m);
        let c = s.cur();
        let mid = s.mid();
        if m.value() > 0 {
            assert forall|i: int| 0 <= i < n.lo implies rank((#[trigger] n.sorted[i])[0]) < rank(
                n.cur()[0],
            ) by {
                if i < mid {
                    assert(rank(s.sorted[i][0]) < rank(s.sorted[mid][0]));
                }
            }
        } else if m.value() < 0 {
            assert forall|i: int| n.hi <= i < n.sorted.len() implies rank(n.cur()[0]) < rank(
                (#[trigger] n.sorted[i])[0],
            ) by {
                if i > mid {
                    assert(rank(s.sorted[mid][0]) < rank(s.sorted[i][0]));
                }
            }
        } else {
            lemma_silent_moves_order(s, rank);
        }
    }
}

/// Scores follow the order: an answer that agrees with a ranking in which
/// the placed groups rise keeps the scores rising.
pub proof fn law_scores_rise(s: SortState, m: CompareResult, rank: spec_fn(Key) -> int)
    requires
        s.wf(),
        s.awaiting,
        s.stage == Stage::Scoring,
        s.ordered_by(rank),
        rising(s.scores),
        agrees(m, rank, s.sorted[s.scores.len() as int][0], s.sorted[s.scores.len() - 1][0]),
    ensures
        rising(s.answered(m).scores),
        s.answered(m).scores.last() == s.scores.last() + m.value(),
{
    let k = s.scores.len() as int;
    assert(rank(s.sorted[k - 1][0]) < rank(s.sorted[k][0]));
    assert(m.value() > 0);
    let n = s.answered(m).scores;
    assert forall|i: int, j: int| 0 <= i < j < n.len() implies n[i] < n[j] by {
        if j < k {
            assert(s.scores[i] < s.scores[j]);
        } else {
            assert(n[j] == s.scores[k - 1] + m.value());
            if i < k - 1 {
                assert(s.scores[i] < s.scores[k - 1]);
            }
        }
    }
}

/// Nothing is lost and nothing appears: the sorter holds the same items
/// after it was asked for its next request.
pub proof fn law_poll_keeps_members(s: SortState, x: Key)
    requires
        s.wf(),
        !s.awaiting,
    ensures
        s.polled().holds(x) == s.holds(x),
{
    lemma_advance_members(s, x);
    let a = s.advance();
    let n = s.polled();
    assert(n.sorted == a.sorted || n.sorted == s.sorted);
    assert(n.queue == a.queue || n.queue == s.queue);
}

/// Nothing is lost and nothing appears: the sorter holds the same items
/// after an answer, also when the answer merges two groups.
pub proof fn law_answer_keeps_members(s: SortState, m: CompareResult, x: Key)
    requires
        s.wf(),
        s.awaiting,
    ensures
        s.answered(m).holds(x) == s.holds(x),
{
    let n = s.answered(m);
    if s.stage == Stage::Inserting && m.value() == 0 {
        lemma_silent_moves_members(s, x);
        assert(n == s.merged());
    } else {
        assert(n.sorted == s.sorted && n.queue == s.queue);
    }
}

/// Placing and merging keep the items.
proof fn lemma_silent_moves_members(s: SortState, x: Key)
    requires
        s.queue.len() > 0,
        0 <= s.lo <= s.hi <= s.sorted.len(),
    ensures
        s.placed().holds(x) == s.holds(x),
        s.lo < s.hi ==> s.merged().holds(x) == s.holds(x),
{
    let c = s.cur();
    {
        let n = s.placed();
        assert forall|i: int| 0 <= i < n.sorted.len() implies #[trigger] n.sorted[i] == (if i
            < s.lo {
            s.sorted[i]
        } else if i == s.lo {
            c
        } else {
            s.sorted[i - 1]
        }) by {}
        assert forall|i: int| 0 <= i < n.queue.len() implies #[trigger] n.queue[i] == s.queue[i
            + 1] by {}
        if s.holds(x) {
            if exists|i: int| 0 <= i < s.sorted.len() && (#[trigger] s.sorted[i]).contains(x) {
                let i = choose|i: int| 0 <= i < s.sorted.len()
                    && (#[trigger] s.sorted[i]).contains(x);
                let ni = if i < s.lo {
                    i
                } else {
                    i + 1
                };
                assert(n.sorted[ni].contains(x));
            } else {
                let i = choose|i: int| 0 <= i < s.queue.len()
                    && (#[trigger] s.queue[i]).contains(x);
                if i == 0 {
                    assert(n.sorted[s.lo].contains(x));
                } else {
                    assert(n.queue[i - 1].contains(x));
                }
            }
        }
        if n.holds(x) {
            if exists|i: int| 0 <= i < n.sorted.len() && (#[trigger] n.sorted[i]).contains(x) {
                let i = choose|i: int| 0 <= i < n.sorted.len()
                    && (#[trigger] n.sorted[i]).contains(x);
                if i < s.lo {
                    assert(s.sorted[i].contains(x));
                } else if i == s.lo {
                    assert(s.queue[0].contains(x));
                } else {
                    assert(s.sorted[i - 1].contains(x));
                }
            } else {
                let i = choose|i: int| 0 <= i < n.queue.len()
                    && (#[trigger] n.queue[i]).contains(x);
                assert(s.queue[i + 1].contains(x));
            }
        }
    }
    if s.lo < s.hi {
        let n = s.merged();
        let m = s.mid();
        let g = s.sorted[m];
        assert forall|i: int| 0 <= i < n.queue.len() implies #[trigger] n.queue[i] == s.queue[i
            + 1] by {}
        assert((g + c).contains(x) == (g.contains(x) || c.contains(x))) by {
            if g.contains(x) {
                let j = choose|j: int| 0 <= j < g.len() && g[j] == x;
                assert((g + c)[j] == x);
            }
            if c.contains(x) {
                let j = choose|j: int| 0 <= j < c.len() && c[j] == x;
                assert((g + c)[g.len() + j] == x);
            }
            if (g + c).contains(x) {
                let j = choose|j: int| 0 <= j < (g + c).len() && (g + c)[j] == x;
                if j < g.len() {
                    assert(g[j] == x);
                } else {
                    assert(c[j - g.len()] == x);
                }
            }
        }
        if s.holds(x) {
            if exists|i: int| 0 <= i < s.sorted.len() && (#[trigger] s.sorted[i]).contains(x) {
                let i = choose|i: int| 0 <= i < s.sorted.len()
                    && (#[trigger] s.sorted[i]).contains(x);
                assert(n.sorted[i].contains(x));
            } else {
                let i = choose|i: int| 0 <= i < s.queue.len()
                    && (#[trigger] s.queue[i]).contains(x);
                if i == 0 {
                    assert(n.sorted[m].contains(x));
                } else {
                    assert(n.queue[i - 1].contains(x));
                }
            }
        }
        if n.holds(x) {
            if exists|i: int| 0 <= i < n.sorted.len() && (#[trigger] n.sorted[i]).contains(x) {
                let i = choose|i: int| 0 <= i < n.sorted.len()
                    && (#[trigger] n.sorted[i]).contains(x);
                if i == m {
                    if g.contains(x) {
                        assert(s.sorted[m].contains(x));
                    } else {
                        assert(s.queue[0].contains(x));
                    }
                } else {
                    assert(s.sorted[i].contains(x));
                }
            } else {
                let i = choose|i: int| 0 <= i < n.queue.len()
                    && (#[trigger] n.queue[i]).contains(x);
                assert(s.queue[i + 1].contains(x));
            }
        }
    }
}

/// What the sorter does without asking keeps the items.
proof fn lemma_advance_members(s: SortState, x: Key)
    requires
        s.wf(),
    ensures
        s.advance().holds(x) == s.holds(x),
    decreases s.queue.len(),
{
    if s.stage != Stage::Inserting || s.awaiting || s.queue.len() == 0 {
    } else if s.lo >= s.hi {
        lemma_silent_moves(s);
        lemma_silent_moves_members(s, x);
        lemma_advance_members(s.placed(), x);
    } else if s.cur()[0] == s.sorted[s.mid()][0] {
        lemma_silent_moves(s);
        lemma_silent_moves_members(s, x);
        lemma_advance_members(s.merged(), x);
    } else {
    }
}

/// The sorting side of a ranking run.
#[derive(Debug)]
pub struct Sorter {
    sorted: Vec<OrdPaths>,
    queue: Vec<OrdPaths>,
    lo: usize,
    hi: usize,
    stage: Stage,
    scores: Vec<i64>,
    awaiting: bool,
}

impl View for Sorter {
    type V = SortState;

    closed spec fn view(&self) -> SortState {
        SortState {
            sorted: groups_of(self.sorted@),
            queue: groups_of(self.queue@),
            lo: self.lo as int,
            hi: self.hi as int,
            stage: self.stage,
            scores: Seq::new(self.scores@.len(), |i: int| self.scores@[i] as int),
            awaiting: self.awaiting,
        }
    }
}

impl Sorter {
    /// A sorter is well formed when its state is.
    pub open spec fn wf(&self) -> bool {
        self@.wf()
    }

    /// A sorter that will place `items` in the given order.
    pub fn new(items: Vec<OrdPaths>) -> (s: Sorter)
        requires
            items@.len() <= MAX_ITEMS,
            forall|i: int| 0 <= i < items@.len() ==> (#[trigger] items@[i]).wf(),
        ensures
            s.wf(),
            s@ == SortState::start(groups_of(items@)),
    {
        let s = Sorter {
            sorted: Vec::new(),
            queue: items,
            lo: 0,
            hi: 0,
            stage: Stage::Inserting,
            scores: Vec::new(),
            awaiting: false,
        };
        assert(s@.sorted =~= Seq::<Seq<Key>>::empty());
        assert(s@.scores =~= Seq::<int>::empty());
        s
    }

    /// The phase of the sorter.
    pub fn stage(&self) -> (st: Stage)
        ensures
            st == self@.stage,
    {
        self.stage
    }

    /// Whether a comparison was requested and not answered yet.
    pub fn is_awaiting(&self) -> (b: bool)
        ensures
            b == self@.awaiting,
    {
        self.awaiting
    }

    /// Whether order and scores are complete.
    pub fn is_done(&self) -> (b: bool)
        ensures
            b == (self@.stage == Stage::Done),
    {
        self.stage == Stage::Done
    }

    /// The number of groups placed so far.
    pub fn placed_len(&self) -> (n: usize)
        ensures
            n == self@.sorted.len(),
    {
        self.sorted.len()
    }

    /// The number of groups still to place.
    pub fn remaining(&self) -> (n: usize)
        ensures
            n == self@.queue.len(),
    {
        self.queue.len()
    }

    /// The groups placed so far, worst first.
    pub fn groups(&self) -> (g: &Vec<OrdPaths>)
        ensures
            groups_of(g@) == self@.sorted,
    {
        &self.sorted
    }

    /// The scores of the groups that have one, in the order of the groups.
    pub fn scores(&self) -> (sc: &Vec<i64>)
        ensures
            sc@.len() == self@.scores.len(),
            forall|i: int| 0 <= i < sc@.len() ==> (#[trigger] sc@[i]) == self@.scores[i],
    {
        &self.scores
    }

    /// The scored groups, each as its score and one member picked at random
    /// to stand for the group.
    pub fn output(&self) -> (out: Vec<(i64, String)>)
        requires
            self.wf(),
        ensures
            out@.len() == self@.scores.len(),
            forall|i: int|
                0 <= i < out@.len() ==> (#[trigger] out@[i]).0 == self@.scores[i]
                    && self@.sorted[i].contains(out@[i].1@),
    {
        let mut out: Vec<(i64, String)> = Vec::new();
        let mut i: usize = 0;
        while i < self.scores.len()
            invariant
                self.wf(),
                i <= self.scores@.len(),
                out@.len() == i,
                forall|j: int|
                    0 <= j < i ==> (#[trigger] out@[j]).0 == self@.scores[j]
                        && self@.sorted[j].contains(out@[j].1@),
            decreases self.scores@.len() - i,
        {
            assert(self@.sorted[i as int].len() > 0);
            let rep = self.sorted[i].random_one();
            match rep {
                Some(p) => {
                    out.push((self.scores[i], p.clone()));
                },
                None => {
                    out.push((self.scores[i], self.sorted[i].canonical_key().clone()));
                },
            }
            i += 1;
        }
        out
    }

    /// Places and merges as far as that needs no answer.
    fn settle(&mut self)
        requires
            old(self).wf(),
            old(self)@.stage == Stage::Inserting,
            !old(self)@.awaiting,
        ensures
            final(self).wf(),
            final(self)@ == old(self)@.advance(),
    {
        proof {
            lemma_advance_wf(self@);
        }
        while self.queue.len() > 0
            invariant
                self.wf(),
                self@.stage == Stage::Inserting,
                !self@.awaiting,
                self@.advance() == old(self)@.advance(),
            ensures
                self.wf(),
                self@ == old(self)@.advance(),
            decreases self.queue@.len(),
        {
            let ghost s = self@;
            proof {
                lemma_silent_moves(s);
            }
            if self.lo >= self.hi {
                let cur = self.queue.remove(0);
                self.sorted.insert(self.lo, cur);
                self.lo = 0;
                self.hi = self.sorted.len();
                proof {
                    assert(self@.sorted =~= s.placed().sorted);
                    assert(self@.queue =~= s.placed().queue);
                    assert(self@.scores =~= s.placed().scores);
                    assert(self@ == s.placed());
                }
            } else {
                let mid = self.lo + (self.hi - self.lo) / 2;
                assert(mid == s.mid());
                if *self.queue[0].canonical_key() == *self.sorted[mid].canonical_key() {
                    let mut cur = self.queue.remove(0);
                    self.sorted[mid].extend(&mut cur);
                    self.lo = 0;
                    self.hi = self.sorted.len();
                    proof {
                        assert(self@.sorted =~= s.merged().sorted);
                        assert(self@.queue =~= s.merged().queue);
                        assert(self@.scores =~= s.merged().scores);
                        assert(self@ == s.merged());
                    }
                } else {
                    assert(s.advance() == s);
                    break ;
                }
            }
        }
    }

    /// The next request to send, or `None` when the sorter is done. After a
    /// comparison the sorter waits for `answer`.
    pub fn poll(&mut self) -> (e: Option<Event>)
        requires
            old(self).wf(),
            !old(self)@.awaiting,
        ensures
            final(self).wf(),
            final(self)@ == old(self)@.polled(),
            match e {
                Some(ev) => old(self)@.request() == Some(ev@) && ev.wf(),
                None => old(self)@.request() is None,
            },
    {
        let ghost s = self@;
        proof {
            lemma_polled_wf(s);
        }
        match self.stage {
            Stage::Inserting => {
                self.settle();
                if self.queue.len() == 0 {
                    self.stage = Stage::Scoring;
                    self.lo = 0;
                    self.hi = 0;
                    Some(Event::Finished)
                } else {
                    proof {
                        lemma_advance_wf(s);
                    }
                    let mid = self.lo + (self.hi - self.lo) / 2;
                    self.awaiting = true;
                    Some(Event::Compare(self.queue[0].clone(), self.sorted[mid].clone()))
                }
            },
            Stage::Scoring => {
                if self.scores.len() == 0 && self.sorted.len() > 0 {
                    self.scores.push(0);
                }
                assert(self@.scores =~= s.seeded());
                let n = self.scores.len();
                if n >= self.sorted.len() {
                    self.stage = Stage::Done;
                    Some(Event::Finished)
                } else {
                    self.awaiting = true;
                    Some(Event::Compare(self.sorted[n].clone(), self.sorted[n - 1].clone()))
                }
            },
            Stage::Done => None,
        }
    }

    /// Takes the answer to the comparison that was requested last.
    pub fn answer(&mut self, m: CompareResult)
        requires
            old(self).wf(),
            old(self)@.awaiting,
        ensures
            final(self).wf(),
            final(self)@ == old(self)@.answered(m),
    {
        let ghost s = self@;
        proof {
            lemma_answered_wf(s, m);
        }
        let v = m.to_i8();
        match self.stage {
            Stage::Inserting => {
                let mid = self.lo + (self.hi - self.lo) / 2;
                if v > 0 {
                    self.lo = mid + 1;
                    self.awaiting = false;
                } else if v < 0 {
                    self.hi = mid;
                    self.awaiting = false;
                } else {
                    let mut cur = self.queue.remove(0);
                    self.sorted[mid].extend(&mut cur);
                    self.lo = 0;
                    self.hi = self.sorted.len();
                    self.awaiting = false;
                    proof {
                        assert(self@.sorted =~= s.merged().sorted);
                        assert(self@.queue =~= s.merged().queue);
                        assert(self@.scores =~= s.merged().scores);
                    }
                }
            },
            Stage::Scoring => {
                let n = self.scores.len();
                let last = self.scores[n - 1];
                assert(last == s.scores[n - 1]);
                assert(-2 * (n - 1) <= last <= 2 * (n - 1));
                self.scores.push(last + v as i64);
                self.awaiting = false;
                assert(self@.scores =~= s.answered(m).scores);
            },
            Stage::Done => {},
        }
    }
}

} // verus!
