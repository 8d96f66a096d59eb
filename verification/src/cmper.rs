//! The resolving side: it owns the comparison cache, answers what the cache
//! knows, and turns everything else into a question for the human.
//!
//! The resolver does no input or output. Whoever drives it hands it the
//! requests of the sorter and the keys that were pressed, and carries out
//! what it decides.

use crate::compare::CompareResult;
use crate::event::{Event, EventView};
use crate::matrix::{law_first_judgement, Matrix};
use crate::ordpaths::{Key, OrdPaths};
use crate::relation::{
    closed, inserted, inserted_groups, law_answers_persist, law_insert_answers,
    law_tied_pairs_answered, lemma_inserted_closed, lookup, tied, Relation,
};
use crate::state::{CurrentScreen, Input};
use vstd::prelude::*;

verus! {

/// What the resolver decided about a request.
#[derive(Debug, Clone, Copy, PartialEq, Eq, Structural)]
pub enum Step {
    /// The cache knew the answer: send it and take the next request.
    Reply(CompareResult),
    /// The cache did not know: show the pair and wait for a judgement.
    Ask,
    /// Nothing to send: take the next request.
    Continue,
    /// The run is over.
    Done,
}

/// What a key press asks for.
#[derive(Debug, Clone, Copy, PartialEq, Eq, Structural)]
pub enum Command {
    /// The key means nothing here: wait for the next one.
    Ignore,
    /// The screen changed: draw it again.
    Redraw,
    /// The human judged the pair that is shown.
    Answer(CompareResult),
    /// Save the cache and leave.
    SaveAndQuit,
    /// Leave without saving.
    Quit,
}

/// What the resolver decides about a request while no pair waits: the
/// answer of the cache where it has one, and a question for the human only
/// where it has none. `Finished` starts the draining, and ends the run when
/// the resolver drains already.
pub open spec fn request_step(cache: Relation, draining: bool, event: EventView) -> Step {
    match event {
        EventView::Compare(a, b) => match lookup(cache, a[0], b[0]) {
            Some(m) => Step::Reply(m),
            None => Step::Ask,
        },
        EventView::Finished => if draining {
            Step::Done
        } else {
            Step::Continue
        },
    }
}

/// The resolving side of a ranking run.
#[derive(Debug)]
pub struct Cmper {
    current_screen: CurrentScreen,
    pending: Option<(OrdPaths, OrdPaths)>,
    matrix: Matrix,
    draining: bool,
    images: Vec<OrdPaths>,
}

impl Cmper {
    /// The relation that the cache holds.
    pub closed spec fn cache(&self) -> Relation {
        self.matrix@
    }

    /// The groups that the cache holds.
    pub closed spec fn groups(&self) -> Map<Key, Seq<Key>> {
        self.matrix.groups()
    }

    /// The pair that waits for the human's judgement, by its two groups.
    pub closed spec fn pending(&self) -> Option<(Seq<Key>, Seq<Key>)> {
        match self.pending {
            Some((a, b)) => Some((a@, b@)),
            None => None,
        }
    }

    /// The screen that is shown.
    pub closed spec fn screen(&self) -> CurrentScreen {
        self.current_screen
    }

    /// Whether the sorter has announced that it asks nothing new.
    pub closed spec fn draining(&self) -> bool {
        self.draining
    }

    /// The groups of the run, as they were found.
    pub closed spec fn found(&self) -> Seq<OrdPaths> {
        self.images@
    }

    /// The invariant of the representation.
    pub closed spec fn inv(&self) -> bool {
        self.matrix.wf()
    }

    /// The invariant: the cache is closed, the pair that waits is one that
    /// the cache cannot answer, and the screen is one of this tool.
    pub open spec fn wf(&self) -> bool {
        &&& self.inv()
        &&& closed(self.cache())
        &&& !(self.screen() is Popup)
        &&& match self.pending() {
            Some((a, b)) => a.len() > 0 && b.len() > 0 && lookup(self.cache(), a[0], b[0]) is None
                && !self.draining(),
            None => true,
        }
    }

    /// A resolver over the given cache, for a run over `images`.
    pub fn new(images: Vec<OrdPaths>, matrix: Matrix) -> (c: Cmper)
        requires
            matrix.wf(),
        ensures
            c.wf(),
            c.cache() == matrix@,
            c.groups() == matrix.groups(),
            c.pending() is None,
            c.screen() == CurrentScreen::Main,
            !c.draining(),
            c.found() == images@,
    {
        Cmper {
            current_screen: CurrentScreen::Main,
            pending: None,
            matrix,
            draining: false,
            images,
        }
    }

    /// The cache, for saving.
    pub fn matrix(&self) -> (m: &Matrix)
        requires
            self.wf(),
        ensures
            m.wf(),
            m@ == self.cache(),
            m.groups() == self.groups(),
    {
        &self.matrix
    }

    /// The groups of the run, as they were found.
    pub fn images(&self) -> (v: &Vec<OrdPaths>)
        ensures
            v@ == self.found(),
    {
        &self.images
    }

    /// The screen that is shown.
    pub fn current_screen(&self) -> (s: CurrentScreen)
        ensures
            s == self.screen(),
    {
        self.current_screen
    }

    /// Whether the sorter has announced that it asks nothing new.
    pub fn is_draining(&self) -> (b: bool)
        ensures
            b == self.draining(),
    {
        self.draining
    }

    /// The pair to show to the human, if one waits.
    pub fn question(&self) -> (q: Option<(&OrdPaths, &OrdPaths)>)
        ensures
            match q {
                Some((a, b)) => self.pending() == Some((a@, b@)),
                None => self.pending() is None,
            },
    {
        match &self.pending {
            Some((a, b)) => Some((a, b)),
            None => None,
        }
    }

    /// Takes a request of the sorter.
    ///
    /// A comparison that the cache can answer is answered at once and never
    /// reaches the human. Any other comparison becomes the pair that waits.
    /// The first `Finished` starts the draining, in which every comparison
    /// must be one that the cache can answer; the second ends the run.
    pub fn recv_event(&mut self, event: Event) -> (step: Step)
        requires
            old(self).wf(),
            event.wf(),
            old(self).pending() is None,
            old(self).draining() ==> (event@ matches EventView::Compare(a, b) ==> lookup(
                old(self).cache(),
                a[0],
                b[0],
            ) is Some),
        ensures
            final(self).wf(),
            final(self).cache() == old(self).cache(),
            final(self).groups() == old(self).groups(),
            final(self).found() == old(self).found(),
            step == request_step(old(self).cache(), old(self).draining(), event@),
            (final(self).pending() is Some) == (step == Step::Ask),
            match event@ {
                EventView::Compare(a, b) => {
                    &&& final(self).draining() == old(self).draining()
                    &&& final(self).screen() == old(self).screen()
                    &&& match lookup(old(self).cache(), a[0], b[0]) {
                        Some(m) => step == Step::Reply(m) && final(self).pending() is None,
                        None => step == Step::Ask && final(self).pending() == Some((a, b)),
                    }
                },
                EventView::Finished => {
                    &&& final(self).pending() is None
                    &&& final(self).draining()
                    &&& if old(self).draining() {
                        step == Step::Done && final(self).screen() == CurrentScreen::Finished
                    } else {
                        step == Step::Continue && final(self).screen() == old(self).screen()
                    }
                },
            },
    {
        match event {
            Event::Compare(p1, p2) => {
                match self.matrix.get(&p1, &p2) {
                    Some(ord) => Step::Reply(ord),
                    None => {
                        self.pending = Some((p1, p2));
                        Step::Ask
                    },
                }
            },
            Event::Finished => {
                if self.draining {
                    self.current_screen = CurrentScreen::Finished;
                    Step::Done
                } else {
                    self.draining = true;
                    Step::Continue
                }
            },
        }
    }

    /// Takes the human's judgement of the pair that waits: stores it in the
    /// cache, with all that follows from it, and returns it as the reply to
    /// send to the sorter.
    ///
    /// Where the cache knew no group of either key, a tie leaves the second
    /// key with its own members and then those of the first, and the first
    /// key with itself alone; any other result leaves both groups as they
    /// came.
    pub fn resp_event(&mut self, ord: CompareResult) -> (reply: CompareResult)
        requires
            old(self).wf(),
            old(self).pending() is Some,
        ensures
            final(self).wf(),
            reply == ord,
            final(self).found() == old(self).found(),
            final(self).pending() is None,
            final(self).screen() == old(self).screen(),
            final(self).draining() == old(self).draining(),
            old(self).pending() matches Some((a, b)) && final(self).cache() == inserted(
                old(self).cache(),
                a[0],
                b[0],
                ord,
            ) && final(self).groups() == inserted_groups(
                old(self).groups(),
                old(self).cache(),
                a,
                b,
                ord,
            ) && lookup(final(self).cache(), a[0], b[0]) == Some(ord),
            old(self).pending() matches Some((a, b)) && (!old(self).groups().dom().contains(a[0])
                && !old(self).groups().dom().contains(b[0]) ==> if ord == CompareResult::Same {
                final(self).groups()[b[0]] == b + a && final(self).groups()[a[0]] == seq![a[0]]
            } else {
                final(self).groups()[a[0]] == a && final(self).groups()[b[0]] == b
            }),
    {
        let pair = self.pending.take();
        match pair {
            Some((p1, p2)) => {
                proof {
                    law_insert_answers(self.matrix@, p1.key(), p2.key(), ord);
                    lemma_inserted_closed(self.matrix@, p1.key(), p2.key(), ord);
                    if !self.matrix.groups().dom().contains(p1.key())
                        && !self.matrix.groups().dom().contains(p2.key()) {
                        law_first_judgement(self.matrix, p1@, p2@, ord);
                    }
                }
                self.matrix.insert(&p1, &p2, ord);
            },
            None => {},
        }
        ord
    }

    /// Decides what a key press means on the screen that is shown.
    ///
    /// On the main screen `q` asks whether to leave, and while a pair waits
    /// the arrows and `=` or Enter judge it. On the last screen only `q`
    /// counts. When asked whether to leave, `y` saves and leaves, `Y` leaves,
    /// and any other key goes back.
    pub fn on_key(&mut self, key: Input) -> (c: Command)
        requires
            old(self).wf(),
        ensures
            final(self).wf(),
            final(self).cache() == old(self).cache(),
            final(self).groups() == old(self).groups(),
            final(self).pending() == old(self).pending(),
            final(self).draining() == old(self).draining(),
            final(self).found() == old(self).found(),
            c == key_command(old(self).screen(), old(self).pending() is Some, key),
            final(self).screen()
                == key_screen(old(self).screen(), old(self).pending() is Some, key),
    {
        match self.current_screen {
            CurrentScreen::Main => {
                match key {
                    Input::Char('q') => {
                        self.current_screen = CurrentScreen::Exiting;
                        Command::Redraw
                    },
                    _ => {
                        if self.pending.is_some() {
                            match key {
                                Input::Up => Command::Answer(CompareResult::MuchBetter),
                                Input::Left => Command::Answer(CompareResult::Better),
                                Input::Right => Command::Answer(CompareResult::Worse),
                                Input::Down => Command::Answer(CompareResult::MuchWorse),
                                Input::Char('=') | Input::Enter => Command::Answer(
                                    CompareResult::Same,
                                ),
                                _ => Command::Ignore,
                            }
                        } else {
                            Command::Ignore
                        }
                    },
                }
            },
            CurrentScreen::Finished => {
                match key {
                    Input::Char('q') => {
                        self.current_screen = CurrentScreen::Exiting;
                        Command::Redraw
                    },
                    _ => Command::Ignore,
                }
            },
            CurrentScreen::Exiting => {
                match key {
                    Input::Char('y') => Command::SaveAndQuit,
                    Input::Char('Y') => Command::Quit,
                    _ => {
                        self.current_screen = if self.pending.is_some() {
                            CurrentScreen::Main
                        } else {
                            CurrentScreen::Finished
                        };
                        Command::Redraw
                    },
                }
            },
            CurrentScreen::Popup(_) => Command::Ignore,
        }
    }
}

/// The judgement that a key gives while a pair is shown.
pub open spec fn key_judgement(key: Input) -> Option<CompareResult> {
    match key {
        Input::Up => Some(CompareResult::MuchBetter),
        Input::Left => Some(CompareResult::Better),
        Input::Right => Some(CompareResult::Worse),
        Input::Down => Some(CompareResult::MuchWorse),
        Input::Enter => Some(CompareResult::Same),
        Input::Char(c) => if c == '=' {
            Some(CompareResult::Same)
        } else {
            None
        },
        _ => None,
    }
}

/// What `key` asks for on `screen`, where `waiting` says whether a pair is shown.
pub open spec fn key_command(screen: CurrentScreen, waiting: bool, key: Input) -> Command {
    match screen {
        CurrentScreen::Main => if key == Input::Char('q') {
            Command::Redraw
        } else if waiting {
            match key_judgement(key) {
                Some(m) => Command::Answer(m),
                None => Command::Ignore,
            }
        } else {
            Command::Ignore
        },
        CurrentScreen::Finished => if key == Input::Char('q') {
            Command::Redraw
        } else {
            Command::Ignore
        },
        CurrentScreen::Exiting => if key == Input::Char('y') {
            Command::SaveAndQuit
        } else if key == Input::Char('Y') {
            Command::Quit
        } else {
            Command::Redraw
        },
        CurrentScreen::Popup(_) => Command::Ignore,
    }
}

/// The screen after `key` was pressed on `screen`.
pub open spec fn key_screen(screen: CurrentScreen, waiting: bool, key: Input) -> CurrentScreen {
    match screen {
        CurrentScreen::Main => if key == Input::Char('q') {
            CurrentScreen::Exiting
        } else {
            screen
        },
        CurrentScreen::Finished => if key == Input::Char('q') {
            CurrentScreen::Exiting
        } else {
            screen
        },
        CurrentScreen::Exiting => if key == Input::Char('y') || key == Input::Char('Y') {
            screen
        } else if waiting {
            CurrentScreen::Main
        } else {
            CurrentScreen::Finished
        },
        CurrentScreen::Popup(_) => screen,
    }
}

/// The relation after a series of inserts.
pub open spec fn inserted_all(r: Relation, ops: Seq<(Key, Key, CompareResult)>) -> Relation
    decreases ops.len(),
{
    if ops.len() == 0 {
        r
    } else {
        inserted(inserted_all(r, ops.drop_last()), ops.last().0, ops.last().1, ops.last().2)
    }
}

/// A series of inserts keeps a relation closed and every answer it had.
pub proof fn lemma_inserted_all(r: Relation, ops: Seq<(Key, Key, CompareResult)>, x: Key, y: Key)
    requires
        closed(r),
    ensures
        closed(inserted_all(r, ops)),
        lookup(r, x, y) is Some ==> lookup(inserted_all(r, ops), x, y) is Some,
    decreases ops.len(),
{
    if ops.len() > 0 {
        let before = inserted_all(r, ops.drop_last());
        lemma_inserted_all(r, ops.drop_last(), x, y);
        lemma_inserted_closed(before, ops.last().0, ops.last().1, ops.last().2);
        if lookup(r, x, y) is Some {
            law_answers_persist(before, ops.last().0, ops.last().1, ops.last().2, x, y);
        }
    }
}

/// No question is asked twice. Once the human has judged `(a, b)`, the cache
/// answers that pair, and every pair of keys tied to `a` and to `b`, whatever
/// is inserted later; and the resolver asks the human only what the cache
/// cannot answer.
pub proof fn law_no_repeated_question(
    r: Relation,
    a: Key,
    b: Key,
    m: CompareResult,
    later: Seq<(Key, Key, CompareResult)>,
    x: Key,
    y: Key,
)
    requires
        closed(r),
        tied(inserted(r, a, b, m), a, x),
        tied(inserted(r, a, b, m), b, y),
    ensures
        lookup(inserted_all(inserted(r, a, b, m), later), x, y) is Some,
        lookup(inserted_all(inserted(r, a, b, m), later), y, x) is Some,
{
    let r1 = inserted(r, a, b, m);
    lemma_inserted_closed(r, a, b, m);
    law_insert_answers(r, a, b, m);
    law_tied_pairs_answered(r1, a, b, x, y);
    lemma_inserted_all(r1, later, x, y);
    crate::relation::law_symmetry(inserted_all(r1, later), x, y);
}

/// What the cache answers never reaches the human. Where the cache holds a
/// result for `(a, b)`, whether from a judgement of that pair, as the mirror
/// of one, or through a tie, the resolver replies with it to a request for
/// `(a, b)` and to a request for any pair of keys tied to `a` and to `b`,
/// and with the reversed result to the reversed request.
pub proof fn law_cached_request_replied(
    cache: Relation,
    draining: bool,
    a: Seq<Key>,
    b: Seq<Key>,
    m: CompareResult,
)
    requires
        closed(cache),
        lookup(cache, a[0], b[0]) == Some(m),
    ensures
        request_step(cache, draining, EventView::Compare(a, b)) == Step::Reply(m),
        request_step(cache, draining, EventView::Compare(b, a)) == Step::Reply(m.reversed()),
        forall|x: Seq<Key>, y: Seq<Key>|
            tied(cache, a[0], x[0]) && tied(cache, b[0], y[0]) ==> #[trigger] request_step(
                cache,
                draining,
                EventView::Compare(x, y),
            ) == Step::Reply(m),
{
    crate::relation::law_symmetry(cache, a[0], b[0]);
    assert forall|x: Seq<Key>, y: Seq<Key>|
        tied(cache, a[0], x[0]) && tied(cache, b[0], y[0]) implies #[trigger] request_step(
        cache,
        draining,
        EventView::Compare(x, y),
    ) == Step::Reply(m) by {
        law_tied_pairs_answered(cache, a[0], b[0], x[0], y[0]);
    }
}

} // verus!
