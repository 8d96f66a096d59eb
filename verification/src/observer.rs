//! Looking at the tags that were given: how many items have each tag.

use crate::cmper::Command;
use crate::order::{ascending, sort_names};
use crate::ordpaths::{keys_of, list_has, listed, Key};
use crate::state::{CurrentScreen, Input};
use vstd::prelude::*;

verus! {

/// The number of items among `tagged` whose tags hold `tag`.
pub open spec fn occurrences(tagged: Seq<(String, Vec<String>)>, tag: Key) -> nat
    decreases tagged.len(),
{
    if tagged.len() == 0 {
        0
    } else {
        occurrences(tagged.drop_last(), tag) + (if listed(tagged.last().1@, tag) {
            1nat
        } else {
            0nat
        })
    }
}

/// The number of items among `tagged` that have `tag`.
pub fn count_tag(tagged: &Vec<(String, Vec<String>)>, tag: &String) -> (n: usize)
    ensures
        n == occurrences(tagged@, tag@),
{
    let mut n: usize = 0;
    let mut i: usize = 0;
    assert(tagged@.take(0) =~= Seq::<(String, Vec<String>)>::empty());
    while i < tagged.len()
        invariant
            i <= tagged@.len(),
            n <= i,
            n == occurrences(tagged@.take(i as int), tag@),
        decreases tagged@.len() - i,
    {
        proof {
            assert(tagged@.take(i as int + 1).drop_last() =~= tagged@.take(i as int));
            assert(tagged@.take(i as int + 1).last() == tagged@[i as int]);
        }
        if list_has(&tagged[i].1, tag) {
            n += 1;
        }
        i += 1;
    }
    assert(tagged@.take(i as int) =~= tagged@);
    n
}

/// For each of `names`, in the given order, the number of items that have it.
pub fn count_tags(names: &Vec<String>, tagged: &Vec<(String, Vec<String>)>) -> (out: Vec<
    (String, usize),
>)
    ensures
        out@.len() == names@.len(),
        forall|i: int|
            0 <= i < out@.len() ==> (#[trigger] out@[i]).0@ == names@[i]@ && out@[i].1
                == occurrences(tagged@, names@[i]@),
{
    let mut out: Vec<(String, usize)> = Vec::new();
    let mut i: usize = 0;
    while i < names.len()
        invariant
            i <= names@.len(),
            out@.len() == i,
            forall|j: int|
                0 <= j < i ==> (#[trigger] out@[j]).0@ == names@[j]@ && out@[j].1 == occurrences(
                    tagged@,
                    names@[j]@,
                ),
        decreases names@.len() - i,
    {
        let n = count_tag(tagged, &names[i]);
        out.push((names[i].clone(), n));
        i += 1;
    }
    out
}

/// The names of `tags`, in the order of the list.
pub open spec fn names_of(tags: Seq<(String, i64)>) -> Seq<Key> {
    Seq::new(tags.len(), |i: int| tags[i].0@)
}

/// The names of a list of bars.
pub open spec fn bar_names(bars: Seq<(String, usize)>) -> Seq<Key> {
    Seq::new(bars.len(), |i: int| bars[i].0@)
}

/// The screen that shows the tags and how often each was given.
#[derive(Debug)]
pub struct Observer {
    tags: Vec<(String, i64)>,
    tagged: Vec<(String, Vec<String>)>,
    current_screen: CurrentScreen,
}

impl Observer {
    /// The tags with their scores.
    pub closed spec fn tags(&self) -> Seq<(String, i64)> {
        self.tags@
    }

    /// The items with the names of their tags.
    pub closed spec fn tagged(&self) -> Seq<(String, Vec<String>)> {
        self.tagged@
    }

    /// The screen that is shown.
    pub closed spec fn screen(&self) -> CurrentScreen {
        self.current_screen
    }

    /// A screen over the given tags and tagged items.
    pub fn new(tags: Vec<(String, i64)>, tagged: Vec<(String, Vec<String>)>) -> (o: Observer)
        ensures
            o.tags() == tags@,
            o.tagged() == tagged@,
            o.screen() == CurrentScreen::Main,
    {
        Observer { tags, tagged, current_screen: CurrentScreen::Main }
    }

    /// The screen that is shown.
    pub fn current_screen(&self) -> (s: CurrentScreen)
        ensures
            s == self.screen(),
    {
        self.current_screen
    }

    /// The names of the tags, in the order in which they are held.
    pub fn names(&self) -> (out: Vec<String>)
        ensures
            keys_of(out@) == names_of(self.tags()),
    {
        let mut out: Vec<String> = Vec::new();
        let mut i: usize = 0;
        while i < self.tags.len()
            invariant
                i <= self.tags@.len(),
                out@.len() == i,
                forall|j: int| 0 <= j < i ==> (#[trigger] out@[j])@ == self.tags@[j].0@,
            decreases self.tags@.len() - i,
        {
            out.push(self.tags[i].0.clone());
            i += 1;
        }
        assert(keys_of(out@) =~= names_of(self.tags()));
        out
    }

    /// The bars to draw: the names of the tags in ascending order, each with
    /// the number of items that have the tag.
    pub fn histogram(&self) -> (out: Vec<(String, usize)>)
        ensures
            out@.len() == self.tags().len(),
            ascending(bar_names(out@)),
            bar_names(out@).to_multiset() == names_of(self.tags()).to_multiset(),
            forall|i: int|
                0 <= i < out@.len() ==> (#[trigger] out@[i]).1 == occurrences(
                    self.tagged(),
                    out@[i].0@,
                ),
    {
        let mut names = self.names();
        let ghost before = keys_of(names@);
        sort_names(&mut names);
        proof {
            before.to_multiset_ensures();
            keys_of(names@).to_multiset_ensures();
        }
        let out = count_tags(&names, &self.tagged);
        assert(bar_names(out@) =~= keys_of(names@));
        out
    }

    /// Decides what a key press means: `q` asks whether to leave, then `y`
    /// leaves and any other key goes back.
    pub fn on_key(&mut self, key: Input) -> (c: Command)
        requires
            old(self).screen() == CurrentScreen::Main || old(self).screen()
                == CurrentScreen::Exiting,
        ensures
            final(self).tags() == old(self).tags(),
            final(self).tagged() == old(self).tagged(),
            final(self).screen() == CurrentScreen::Main || final(self).screen()
                == CurrentScreen::Exiting,
            old(self).screen() == CurrentScreen::Main ==> (if key == Input::Char('q') {
                c == Command::Redraw && final(self).screen() == CurrentScreen::Exiting
            } else {
                c == Command::Ignore && final(self).screen() == CurrentScreen::Main
            }),
            old(self).screen() == CurrentScreen::Exiting ==> (if key == Input::Char('y') {
                c == Command::Quit && final(self).screen() == CurrentScreen::Exiting
            } else {
                c == Command::Redraw && final(self).screen() == CurrentScreen::Main
            }),
    {
        match self.current_screen {
            CurrentScreen::Main => match key {
                Input::Char('q') => {
                    self.current_screen = CurrentScreen::Exiting;
                    Command::Redraw
                },
                _ => Command::Ignore,
            },
            _ => match key {
                Input::Char('y') => Command::Quit,
                _ => {
                    self.current_screen = CurrentScreen::Main;
                    Command::Redraw
                },
            },
        }
    }
}

} // verus!
