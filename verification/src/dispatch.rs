//! The sorter on a pair of channels: requests go out on one, answers come
//! back on the other.

use crate::compare::CompareResult;
use crate::event::{Event, EventView};
use crate::ordpaths::Key;
use crate::sort::{
    law_answer_keeps_members, law_poll_keeps_members, law_progress, lemma_answered_wf,
    lemma_polled_wf, stage_rank, SortState, Sorter, Stage,
};
use crossbeam::channel::{Receiver, Sender};
use vstd::prelude::*;

verus! {

/// The sending end of a channel of `crossbeam`.
#[verifier::external_type_specification]
#[verifier::external_body]
#[verifier::reject_recursive_types(T)]
pub struct ExSender<T>(Sender<T>);

/// The receiving end of a channel of `crossbeam`.
#[verifier::external_type_specification]
#[verifier::external_body]
#[verifier::reject_recursive_types(T)]
pub struct ExReceiver<T>(Receiver<T>);

/// Why a run could not be completed.
#[derive(Debug, Clone, Copy, PartialEq, Eq, Structural)]
pub enum SortError {
    /// The other end of a channel is gone: nobody answers any more.
    ResolverUnavailable,
}

impl SortError {
    /// The error in words.
    pub fn message(&self) -> (s: String)
        ensures
            s@ == "resolver unavailable"@,
    {
        "resolver unavailable".to_owned()
    }
}

/// `Sender::send` of `crossbeam`: blocks until the request is taken, and
/// reports whether it was. It fails when the receiving end is gone, which
/// depends on the other side alone, so nothing is promised of the result.
#[verifier::external_body]
fn send_request(requests: &Sender<Event>, event: Event) -> (sent: bool) {
    requests.send(event).is_ok()
}

/// `Receiver::recv` of `crossbeam`: blocks until an answer arrives, and
/// returns it. It fails when the sending end is gone. What arrives depends
/// on the other side alone, so nothing is promised of the result.
#[verifier::external_body]
fn recv_response(responses: &Receiver<CompareResult>) -> (answer: Option<CompareResult>) {
    responses.recv().ok()
}

impl Sorter {
    /// Makes the next request and, if it is a comparison, waits for the
    /// answer and takes it, whatever it is. Returns whether more is to do,
    /// or an error if the other side is gone.
    pub fn exchange(&mut self, requests: &Sender<Event>, responses: &Receiver<CompareResult>) -> (r:
        Result<bool, SortError>)
        requires
            old(self).wf(),
            !old(self)@.awaiting,
        ensures
            final(self).wf(),
            forall|x: Key| final(self)@.holds(x) == old(self)@.holds(x),
            match r {
                Ok(more) => {
                    &&& !final(self)@.awaiting
                    &&& more == (old(self)@.request() is Some)
                    &&& more == (old(self)@.stage != Stage::Done)
                    &&& !more ==> final(self)@ == old(self)@
                    &&& more ==> nearer(final(self)@, old(self)@)
                    &&& more && old(self)@.request() == Some(EventView::Finished) ==> final(self)@
                        == old(self)@.polled()
                    &&& more && old(self)@.request() != Some(EventView::Finished) ==> exists|
                        m: CompareResult,
                    | final(self)@ == old(self)@.polled().answered(m)
                },
                Err(_) => final(self)@ == old(self)@.polled() && old(self)@.request() is Some,
            },
    {
        let ghost before = self@;
        proof {
            lemma_polled_wf(before);
            assert forall|x: Key| before.polled().holds(x) == before.holds(x) by {
                law_poll_keeps_members(before, x);
            }
        }
        let event = match self.poll() {
            Some(event) => event,
            None => {
                return Ok(false);
            },
        };
        let compare = !event.is_finished();
        if !send_request(requests, event) {
            return Err(SortError::ResolverUnavailable);
        }
        if compare {
            match recv_response(responses) {
                Some(m) => {
                    proof {
                        law_progress(before, m);
                        lemma_answered_wf(self@, m);
                        assert forall|x: Key| self@.answered(m).holds(x) == self@.holds(x) by {
                            law_answer_keeps_members(self@, m, x);
                        }
                    }
                    self.answer(m);
                    assert(self@ == before.polled().answered(m));
                    Ok(true)
                },
                None => Err(SortError::ResolverUnavailable),
            }
        } else {
            proof {
                law_progress(before, CompareResult::Same);
            }
            Ok(true)
        }
    }

    /// Runs the sorter to its end: sends each request, and waits for the
    /// answer to each comparison, whatever answers come. Stops with an error
    /// as soon as the other side is gone.
    ///
    /// A sorter that is done already sends nothing and succeeds. Otherwise
    /// the sorter ends in the state that the answers it received lead to:
    /// with success at the end of the run, with an error at the request
    /// that was not taken or not answered.
    pub fn run(&mut self, requests: &Sender<Event>, responses: &Receiver<CompareResult>) -> (r:
        Result<(), SortError>)
        requires
            old(self).wf(),
            !old(self)@.awaiting,
        ensures
            final(self).wf(),
            r is Ok ==> final(self)@.stage == Stage::Done && !final(self)@.awaiting,
            forall|x: Key| final(self)@.holds(x) == old(self)@.holds(x),
            old(self)@.stage == Stage::Done ==> r is Ok && final(self)@ == old(self)@,
            exists|answers: Seq<CompareResult>|
                final(self)@ == (#[trigger] stopped(old(self)@, answers, r is Err)),
    {
        let ghost mut answers: Seq<CompareResult> = Seq::empty();
        loop
            invariant
                self.wf(),
                !self@.awaiting,
                forall|x: Key| self@.holds(x) == old(self)@.holds(x),
                self@ == ran(old(self)@, answers),
                old(self)@.stage == Stage::Done ==> self@ == old(self)@,
            decreases
                    stage_rank(self@.stage),
                    self@.queue.len(),
                    self@.hi - self@.lo,
                    self@.sorted.len() - self@.scores.len(),
        {
            let ghost before = self@;
            match self.exchange(requests, responses) {
                Ok(true) => {
                    proof {
                        let m = if before.request() == Some(EventView::Finished) {
                            CompareResult::Same
                        } else {
                            choose|m: CompareResult| self@ == before.polled().answered(m)
                        };
                        assert(self@ == exchanged(before, m));
                        let longer = answers.push(m);
                        assert(longer.drop_last() =~= answers);
                        assert(longer.last() == m);
                        answers = longer;
                    }
                },
                Ok(false) => {
                    let done: Result<(), SortError> = Ok(());
                    assert(self@ == stopped(old(self)@, answers, done is Err));
                    return done;
                },
                Err(e) => {
                    assert(self@ == stopped(old(self)@, answers, true));
                    return Err(e);
                },
            }
        }
    }
}

/// The state after one exchange in which the answer `m` came back: the
/// request was made, and a comparison was answered by `m`. A sorter that is
/// done stays as it is.
pub open spec fn exchanged(s: SortState, m: CompareResult) -> SortState {
    match s.request() {
        None => s,
        Some(EventView::Finished) => s.polled(),
        Some(EventView::Compare(_, _)) => s.polled().answered(m),
    }
}

/// The state that a run from `s` is in after the exchanges in which
/// `answers` came back, one exchange for each.
pub open spec fn ran(s: SortState, answers: Seq<CompareResult>) -> SortState
    decreases answers.len(),
{
    if answers.len() == 0 {
        s
    } else {
        exchanged(ran(s, answers.drop_last()), answers.last())
    }
}

/// The state in which a run from `s` stops after the exchanges in which
/// `answers` came back: if it `failed`, with the next request made and
/// nothing more.
pub open spec fn stopped(s: SortState, answers: Seq<CompareResult>, failed: bool) -> SortState {
    if failed {
        ran(s, answers).polled()
    } else {
        ran(s, answers)
    }
}

/// Whether the state `n` is nearer to the end of the run than `s`: in a
/// later phase, or with fewer groups to place, or with a narrower place for
/// the current group, or with fewer scores to find.
pub open spec fn nearer(n: SortState, s: SortState) -> bool {
    ||| stage_rank(n.stage) < stage_rank(s.stage)
    ||| n.stage == s.stage && n.queue.len() < s.queue.len()
    ||| n.stage == s.stage && n.queue.len() == s.queue.len() && 0 <= n.hi - n.lo < s.hi - s.lo
        && n.stage == Stage::Inserting
    ||| n.stage == s.stage && n.queue.len() == s.queue.len() && n.stage == Stage::Scoring && n.hi
        - n.lo == s.hi - s.lo && 0 <= n.sorted.len() - n.scores.len() < s.sorted.len()
        - s.scores.len()
}

} // verus!
