//! Both sides of a ranking run in one value, for a program that needs no
//! threads: the sorter asks, the resolver answers from the cache, and the
//! run stops whenever the human has to judge a pair.
//!
//! The engine shows that the two sides fit: what the sorter asks while the
//! resolver drains is always in the cache.

use crate::cmper::{Cmper, Command, Step};
use crate::compare::CompareResult;
use crate::event::EventView;
use crate::links::{
    law_answer_keeps_links, law_insert_keeps_answers, law_poll_keeps_links, law_scoring_hits,
    linked,
};
use crate::matrix::Matrix;
use crate::ordpaths::{Key, OrdPaths};
use crate::relation::{inserted, inserted_groups, lemma_inserted_closed, lookup, Relation};
use crate::sort::{
    groups_of, law_progress, lemma_answered_wf, lemma_polled_wf, stage_rank, SortState, Sorter,
    Stage, MAX_ITEMS,
};
use crate::state::{CurrentScreen, Input};
use vstd::prelude::*;

verus! {

/// The state of the sorter when it has gone on as far as the cache `r`
/// answers: at a comparison that the cache cannot answer, or at the end.
pub open spec fn settled(s: SortState, r: Relation) -> SortState
    decreases stage_rank(s.stage), s.queue.len(), s.hi - s.lo, s.sorted.len() - s.scores.len(),
    when s.wf() && !s.awaiting
{
    match s.request() {
        None => s,
        Some(EventView::Finished) => {
            proof {
                law_progress(s, CompareResult::Same);
                lemma_polled_wf(s);
            }
            settled(s.polled(), r)
        },
        Some(EventView::Compare(a, b)) => match lookup(r, a[0], b[0]) {
            Some(m) => {
                proof {
                    law_progress(s, m);
                    lemma_polled_wf(s);
                    lemma_answered_wf(s.polled(), m);
                }
                settled(s.polled().answered(m), r)
            },
            None => s.polled(),
        },
    }
}

/// A ranking run: the sorter and the resolver with its cache.
#[derive(Debug)]
pub struct App {
    sorter: Sorter,
    resolver: Cmper,
}

impl App {
    /// The state of the sorter.
    pub closed spec fn sorting(&self) -> SortState {
        self.sorter@
    }

    /// The relation that the cache holds.
    pub closed spec fn cache(&self) -> Relation {
        self.resolver.cache()
    }

    /// The groups that the cache holds.
    pub closed spec fn groups(&self) -> Map<Key, Seq<Key>> {
        self.resolver.groups()
    }

    /// The pair that waits for the human's judgement.
    pub closed spec fn pending(&self) -> Option<(Seq<Key>, Seq<Key>)> {
        self.resolver.pending()
    }

    /// The screen that is shown.
    pub closed spec fn screen(&self) -> CurrentScreen {
        self.resolver.screen()
    }

    /// The invariant of the representation.
    pub closed spec fn inv(&self) -> bool {
        &&& self.sorter.wf()
        &&& self.resolver.wf()
        &&& self.resolver.draining() == (self.sorter@.stage != Stage::Inserting)
    }

    /// The invariant: the cache answers for all neighbours of the order, and
    /// the pair that waits is the one that the sorter asked last.
    pub open spec fn wf(&self) -> bool {
        &&& self.inv()
        &&& self.sorting().wf()
        &&& linked(self.sorting(), self.cache())
        &&& self.sorting().awaiting == (self.pending() is Some)
        &&& match self.pending() {
            Some((a, b)) => {
                &&& self.sorting().stage == Stage::Inserting
                &&& a == self.sorting().cur()
                &&& b == self.sorting().sorted[self.sorting().mid()]
                &&& lookup(self.cache(), a[0], b[0]) is None
            },
            None => true,
        }
    }

    /// A run that will rank `images` with the help of the cache `matrix`.
    pub fn new(images: Vec<OrdPaths>, matrix: Matrix) -> (app: App)
        requires
            matrix.wf(),
            images@.len() <= MAX_ITEMS,
            forall|i: int| 0 <= i < images@.len() ==> (#[trigger] images@[i]).wf(),
        ensures
            app.wf(),
            app.sorting() == SortState::start(groups_of(images@)),
            app.cache() == matrix@,
            app.groups() == matrix.groups(),
            app.pending() is None,
            app.screen() == CurrentScreen::Main,
    {
        let found = images.clone();
        assert(groups_of(found@) =~= groups_of(images@)) by {
            assert forall|i: int| 0 <= i < images@.len() implies (#[trigger] found@[i])@
                == images@[i]@ by {}
        }
        assert forall|i: int| 0 <= i < found@.len() implies (#[trigger] found@[i]).wf() by {
            assert(found@[i]@ == images@[i]@);
        }
        App { sorter: Sorter::new(found), resolver: Cmper::new(images, matrix) }
    }

    /// The sorter.
    pub fn sorter(&self) -> (s: &Sorter)
        ensures
            s@ == self.sorting(),
    {
        &self.sorter
    }

    /// The resolver.
    pub fn resolver(&self) -> (c: &Cmper)
        ensures
            c.cache() == self.cache(),
            c.groups() == self.groups(),
            c.pending() == self.pending(),
            c.screen() == self.screen(),
    {
        &self.resolver
    }

    /// Whether order and scores are complete.
    pub fn is_finished(&self) -> (b: bool)
        ensures
            b == (self.sorting().stage == Stage::Done),
    {
        self.sorter.is_done()
    }

    /// Goes on with the run as far as the cache answers. Returns whether a
    /// pair waits for the human; if none does, the run is complete.
    pub fn recv_event(&mut self) -> (waiting: bool)
        requires
            old(self).wf(),
            old(self).pending() is None,
        ensures
            final(self).wf(),
            final(self).sorting() == settled(old(self).sorting(), old(self).cache()),
            final(self).cache() == old(self).cache(),
            final(self).groups() == old(self).groups(),
            waiting == (final(self).pending() is Some),
            !waiting ==> final(self).sorting().stage == Stage::Done,
    {
        loop
            invariant
                self.wf(),
                self.pending() is None,
                self.cache() == old(self).cache(),
                self.groups() == old(self).groups(),
                settled(self.sorting(), self.cache()) == settled(
                    old(self).sorting(),
                    old(self).cache(),
                ),
            decreases
                    stage_rank(self.sorter@.stage),
                    self.sorter@.queue.len(),
                    self.sorter@.hi - self.sorter@.lo,
                    self.sorter@.sorted.len() - self.sorter@.scores.len(),
        {
            let ghost s = self.sorter@;
            let ghost r = self.resolver.cache();
            proof {
                lemma_polled_wf(s);
                law_poll_keeps_links(s, r);
                law_progress(s, CompareResult::Same);
                if s.stage == Stage::Scoring {
                    law_scoring_hits(s, r);
                }
            }
            let event = match self.sorter.poll() {
                Some(event) => event,
                None => {
                    return false;
                },
            };
            match self.resolver.recv_event(event) {
                Step::Reply(m) => {
                    proof {
                        law_progress(s, m);
                        lemma_answered_wf(s.polled(), m);
                        law_answer_keeps_links(s.polled(), m, r, r);
                    }
                    self.sorter.answer(m);
                },
                Step::Ask => {
                    return true;
                },
                Step::Continue => {},
                Step::Done => {},
            }
        }
    }

    /// Takes the human's judgement of the pair that waits: the cache stores
    /// it with all that follows from it, and the sorter goes on with it.
    pub fn resp_event(&mut self, ord: CompareResult)
        requires
            old(self).wf(),
            old(self).pending() is Some,
        ensures
            final(self).wf(),
            final(self).pending() is None,
            final(self).sorting() == old(self).sorting().answered(ord),
            old(self).pending() matches Some((a, b)) && final(self).cache() == inserted(
                old(self).cache(),
                a[0],
                b[0],
                ord,
            ) && final(self).groups() == inserted_groups(
                old(self).groups(),
                old(self).cache(),
                a,
                b,
                ord,
            ),
    {
        let ghost s = self.sorter@;
        let ghost r = self.resolver.cache();
        let ghost pair = self.resolver.pending()->0;
        proof {
            lemma_inserted_closed(r, pair.0[0], pair.1[0], ord);
            law_insert_keeps_answers(r, pair.0[0], pair.1[0], ord);
            law_answer_keeps_links(s, ord, r, inserted(r, pair.0[0], pair.1[0], ord));
            lemma_answered_wf(s, ord);
        }
        let reply = self.resolver.resp_event(ord);
        self.sorter.answer(reply);
    }

    /// Decides what a key press means on the screen that is shown.
    pub fn on_key(&mut self, key: Input) -> (c: Command)
        requires
            old(self).wf(),
        ensures
            final(self).wf(),
            final(self).sorting() == old(self).sorting(),
            final(self).cache() == old(self).cache(),
            final(self).groups() == old(self).groups(),
            final(self).pending() == old(self).pending(),
            c == crate::cmper::key_command(old(self).screen(), old(self).pending() is Some, key),
            final(self).screen() == crate::cmper::key_screen(
                old(self).screen(),
                old(self).pending() is Some,
                key,
            ),
    {
        self.resolver.on_key(key)
    }

    /// The scored groups, each as its score and one member picked at random.
    pub fn output(&self) -> (out: Vec<(i64, String)>)
        requires
            self.wf(),
        ensures
            out@.len() == self.sorting().scores.len(),
            forall|i: int|
                0 <= i < out@.len() ==> (#[trigger] out@[i]).0 == self.sorting().scores[i]
                    && self.sorting().sorted[i].contains(out@[i].1@),
    {
        self.sorter.output()
    }
}

} // verus!
