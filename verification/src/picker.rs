//! Picking items page by page: which items are chosen, and what each key
//! does on each screen.

use crate::items::{lemma_page_len, page_of, Items};
use crate::ordpaths::{keys_of, Key};
use crate::state::{CurrentScreen, Input};
use vstd::prelude::*;

verus! {

/// How a picked file gets to the target directory.
#[derive(Debug, Clone, Copy, PartialEq, Eq, Structural)]
pub enum Method {
    Cp,
    SoftLink,
    HardLink,
    Move,
}

impl Default for Method {
    fn default() -> (m: Method)
        ensures
            m == Method::SoftLink,
    {
        Method::SoftLink
    }
}

/// A set of paths, kept in the order in which they were added.
#[derive(Debug)]
pub struct PathSet {
    paths: Vec<String>,
}

impl View for PathSet {
    type V = Set<Key>;

    closed spec fn view(&self) -> Set<Key> {
        Set::new(|k: Key| exists|i: int| 0 <= i < self.paths@.len()
            && (#[trigger] self.paths@[i])@ == k)
    }
}

impl PathSet {
    /// No path occurs twice.
    pub closed spec fn wf(&self) -> bool {
        forall|i: int, j: int|
            0 <= i < self.paths@.len() && 0 <= j < self.paths@.len() && i != j ==> (
            #[trigger] self.paths@[i])@ != (#[trigger] self.paths@[j])@
    }

    /// The empty set.
    pub fn new() -> (s: PathSet)
        ensures
            s.wf(),
            s@ == Set::<Key>::empty(),
    {
        let s = PathSet { paths: Vec::new() };
        assert(s@ =~= Set::<Key>::empty());
        s
    }

    /// The set of the given paths.
    pub fn from_vec(paths: Vec<String>) -> (s: PathSet)
        ensures
            s.wf(),
            forall|k: Key| s@.contains(k) == keys_of(paths@).contains(k),
    {
        let mut s = PathSet::new();
        let mut i: usize = 0;
        while i < paths.len()
            invariant
                i <= paths@.len(),
                s.wf(),
                forall|k: Key|
                    s@.contains(k) == exists|j: int| 0 <= j < i && (#[trigger] paths@[j])@ == k,
            decreases paths@.len() - i,
        {
            s.insert(paths[i].clone());
            i += 1;
        }
        proof {
            assert forall|k: Key| s@.contains(k) == keys_of(paths@).contains(k) by {
                if s@.contains(k) {
                    let j = choose|j: int| 0 <= j < paths@.len() && (#[trigger] paths@[j])@ == k;
                    assert(keys_of(paths@)[j] == k);
                }
                if keys_of(paths@).contains(k) {
                    let j = choose|j: int| 0 <= j < keys_of(paths@).len() && keys_of(paths@)[j]
                        == k;
                    assert(paths@[j]@ == k);
                }
            }
        }
        s
    }

    /// Where `path` stands, if it is in the set.
    fn position(&self, path: &String) -> (r: Option<usize>)
        ensures
            match r {
                Some(i) => i < self.paths@.len() && self.paths@[i as int]@ == path@,
                None => !self@.contains(path@),
            },
    {
        let mut i: usize = 0;
        while i < self.paths.len()
            invariant
                i <= self.paths@.len(),
                forall|j: int| 0 <= j < i ==> (#[trigger] self.paths@[j])@ != path@,
            decreases self.paths@.len() - i,
        {
            if self.paths[i] == *path {
                return Some(i);
            }
            i += 1;
        }
        None
    }

    /// Whether `path` is in the set.
    pub fn contains(&self, path: &String) -> (b: bool)
        ensures
            b == self@.contains(path@),
    {
        let r = self.position(path);
        proof {
            if let Some(i) = r {
                assert(self.paths@[i as int]@ == path@);
            }
        }
        r.is_some()
    }

    /// Adds `path`.
    pub fn insert(&mut self, path: String)
        requires
            old(self).wf(),
        ensures
            final(self).wf(),
            final(self)@ == old(self)@.insert(path@),
    {
        let ghost before = self.paths@;
        if self.position(&path).is_none() {
            self.paths.push(path);
            proof {
                assert forall|k: Key| self@.contains(k) == (old(self)@.contains(k) || k
                    == path@) by {
                    if old(self)@.contains(k) {
                        let i = choose|i: int| 0 <= i < before.len() && (#[trigger] before[i])@
                            == k;
                        assert(self.paths@[i]@ == k);
                    }
                    if k == path@ {
                        assert(self.paths@[before.len() as int]@ == k);
                    }
                    if self@.contains(k) && k != path@ {
                        let i = choose|i: int|
                            0 <= i < self.paths@.len() && (#[trigger] self.paths@[i])@ == k;
                        assert(before[i]@ == k);
                    }
                }
            }
        }
        assert(self@ =~= old(self)@.insert(path@));
    }

    /// Takes `path` out.
    pub fn remove(&mut self, path: &String)
        requires
            old(self).wf(),
        ensures
            final(self).wf(),
            final(self)@ == old(self)@.remove(path@),
    {
        let ghost before = self.paths@;
        match self.position(path) {
            Some(i) => {
                self.paths.remove(i);
                proof {
                    assert forall|k: Key| self@.contains(k) == (old(self)@.contains(k) && k
                        != path@) by {
                        if old(self)@.contains(k) && k != path@ {
                            let j = choose|j: int|
                                0 <= j < before.len() && (#[trigger] before[j])@ == k;
                            if j < i {
                                assert(self.paths@[j]@ == k);
                            } else {
                                assert(self.paths@[j - 1]@ == k);
                            }
                        }
                        if self@.contains(k) {
                            let j = choose|j: int|
                                0 <= j < self.paths@.len() && (#[trigger] self.paths@[j])@ == k;
                            if j < i {
                                assert(before[j]@ == k);
                            } else {
                                assert(before[j + 1]@ == k);
                            }
                        }
                    }
                }
            },
            None => {},
        }
        assert(self@ =~= old(self)@.remove(path@));
    }

    /// The paths of the set, for saving.
    pub fn paths(&self) -> (v: &Vec<String>)
        ensures
            forall|k: Key| keys_of(v@).contains(k) == self@.contains(k),
    {
        proof {
            assert forall|k: Key| keys_of(self.paths@).contains(k) == self@.contains(k) by {
                if keys_of(self.paths@).contains(k) {
                    let j = choose|j: int|
                        0 <= j < keys_of(self.paths@).len() && keys_of(self.paths@)[j] == k;
                    assert(self.paths@[j]@ == k);
                }
                if self@.contains(k) {
                    let j = choose|j: int|
                        0 <= j < self.paths@.len() && (#[trigger] self.paths@[j])@ == k;
                    assert(keys_of(self.paths@)[j] == k);
                }
            }
        }
        &self.paths
    }
}

/// What the picker asks of its driver after a key.
#[derive(Debug, Clone, Copy, PartialEq, Eq, Structural)]
pub enum PickerCommand {
    /// The key means nothing here: wait for the next one.
    Ignore,
    /// The screen changed: draw it again.
    Redraw,
    /// Another page is current: mark what was picked on it, then draw.
    Reload,
    /// Save the picked paths, carry the files over and leave.
    SaveAndQuit,
    /// Leave without saving.
    Quit,
}

/// The digit that a character stands for.
pub open spec fn digit_of(c: char) -> Option<int> {
    if '0' <= c <= '9' {
        Some(c as int - '0' as int)
    } else {
        None
    }
}

/// The digit that a character stands for.
pub fn to_digit(c: char) -> (d: Option<usize>)
    ensures
        match d {
            Some(v) => digit_of(c) == Some(v as int) && v <= 9,
            None => digit_of(c) is None,
        },
{
    if '0' <= c && c <= '9' {
        Some((c as u32 - '0' as u32) as usize)
    } else {
        None
    }
}

/// The page that typing the digit `d` leads to from `page`, before it is
/// held to the pages that exist.
pub fn typed_page(page: usize, d: usize) -> (p: usize)
    requires
        d <= 9,
    ensures
        p == (if page * 10 + d > usize::MAX {
            usize::MAX as int
        } else {
            page * 10 + d
        }),
{
    match page.checked_mul(10) {
        Some(tens) => match tens.checked_add(d) {
            Some(p) => p,
            None => usize::MAX,
        },
        None => usize::MAX,
    }
}

/// The state of the picking screens.
#[derive(Debug)]
pub struct Picker {
    current_screen: CurrentScreen,
    chosen: [bool; 9],
    items: Items<String, 9>,
    method: Method,
    to: String,
    cache: PathSet,
    cache_path: String,
}

impl Picker {
    /// The screen that is shown.
    pub closed spec fn screen(&self) -> CurrentScreen {
        self.current_screen
    }

    /// Which items of the current page are marked as picked.
    pub closed spec fn chosen(&self) -> Seq<bool> {
        self.chosen@
    }

    /// All items.
    pub closed spec fn all(&self) -> Seq<String> {
        self.items@
    }

    /// The current page.
    pub closed spec fn page(&self) -> nat {
        self.items.current()
    }

    /// The picked paths.
    pub closed spec fn picked(&self) -> Set<Key> {
        self.cache@
    }

    /// How files are carried over, the target directory, and where the
    /// picked paths are saved.
    pub closed spec fn settings(&self) -> (Method, Seq<char>, Seq<char>) {
        (self.method, self.to@, self.cache_path@)
    }

    /// The items of the current page.
    pub open spec fn shown(&self) -> Seq<String> {
        page_of(self.all(), self.page() as int, 9)
    }

    /// The invariant of the representation.
    pub closed spec fn wf(&self) -> bool {
        self.cache.wf() && self.items.wf()
    }

    /// A picker on the first page of `images`, with the paths that were
    /// picked before.
    pub fn new(method: Method, picked: Vec<String>, cache_path: String, images: Vec<String>,
        to: String) -> (p: Picker)
        ensures
            p.wf(),
            p.screen() == CurrentScreen::Main,
            p.all() == images@,
            p.page() == 0,
            p.chosen() == Seq::new(9, |i: int| false),
            forall|k: Key| p.picked().contains(k) == keys_of(picked@).contains(k),
            p.settings() == (method, to@, cache_path@),
    {
        let p = Picker {
            current_screen: CurrentScreen::Main,
            chosen: [false; 9],
            items: Items::new(images),
            method,
            to,
            cache: PathSet::from_vec(picked),
            cache_path,
        };
        assert(p.chosen() =~= Seq::new(9, |i: int| false));
        p
    }

    /// The screen that is shown.
    pub fn current_screen(&self) -> (s: CurrentScreen)
        ensures
            s == self.screen(),
    {
        self.current_screen
    }

    /// How files are carried over.
    pub fn method(&self) -> (m: Method)
        ensures
            m == self.settings().0,
    {
        self.method
    }

    /// The target directory.
    pub fn to(&self) -> (t: &String)
        ensures
            t@ == self.settings().1,
    {
        &self.to
    }

    /// Where the picked paths are saved.
    pub fn cache_path(&self) -> (p: &String)
        ensures
            p@ == self.settings().2,
    {
        &self.cache_path
    }

    /// The picked paths.
    pub fn cache(&self) -> (c: &PathSet)
        ensures
            c@ == self.picked(),
    {
        &self.cache
    }

    /// The items, with the current page.
    pub fn items(&self) -> (it: &Items<String, 9>)
        ensures
            it@ == self.all(),
            it.current() == self.page(),
    {
        &self.items
    }

    /// The marks of the current page.
    pub fn chosen_flags(&self) -> (c: [bool; 9])
        ensures
            c@ == self.chosen(),
    {
        self.chosen
    }

    /// The number of items before the current page.
    pub fn finished(&self) -> (n: usize)
        requires
            self.wf(),
        ensures
            n == 9 * self.page(),
    {
        let len = self.items.len();
        assert(self.items.current() * 9 <= len);
        9 * self.items.page()
    }

    /// Marks the items of the current page that were picked before. Marks
    /// that are set stay.
    pub fn mark_page(&mut self)
        requires
            old(self).wf(),
        ensures
            final(self).wf(),
            final(self).screen() == old(self).screen(),
            final(self).all() == old(self).all(),
            final(self).page() == old(self).page(),
            final(self).picked() == old(self).picked(),
            final(self).settings() == old(self).settings(),
            final(self).chosen().len() == 9,
            forall|i: int|
                0 <= i < 9 ==> (#[trigger] final(self).chosen()[i]) == (old(self).chosen()[i] || (i
                    < old(self).shown().len() && old(self).picked().contains(
                    old(self).shown()[i]@,
                ))),
    {
        let ghost shown = self.shown();
        let mut i: usize = 0;
        let n = self.items.current_items().len();
        proof {
            lemma_page_len(self.items@, self.items.current() as int, 9);
        }
        while i < n
            invariant
                i <= n <= 9,
                n == shown.len(),
                shown == old(self).shown(),
                self.wf(),
                self.current_screen == old(self).current_screen,
                self.items == old(self).items,
                self.cache == old(self).cache,
                self.settings() == old(self).settings(),
                self.chosen@.len() == 9,
                forall|j: int|
                    0 <= j < 9 ==> (#[trigger] self.chosen@[j]) == (old(self).chosen@[j] || (j < i
                        && old(self).cache@.contains(shown[j]@))),
            decreases n - i,
        {
            let cur = self.items.current_items();
            if self.cache.contains(&cur[i]) {
                self.chosen[i] = true;
            }
            i += 1;
        }
    }

    /// Decides what a key press means on the screen that is shown, and
    /// changes marks, picked paths, page and screen accordingly.
    pub fn on_key(&mut self, key: Input) -> (c: PickerCommand)
        requires
            old(self).wf(),
        ensures
            final(self).wf(),
            final(self).all() == old(self).all(),
            final(self).settings() == old(self).settings(),
            final(self).chosen().len() == 9,
            c == picker_command(old(self).screen(), key, old(self).has_next()),
            final(self).screen() == picker_screen(old(self).screen(), key, old(self).has_next()),
            final(self).page() == picker_page(
                old(self).screen(),
                key,
                old(self).page() as int,
                old(self).all().len() as int,
            ),
            c == PickerCommand::Reload ==> final(self).chosen() == Seq::new(9, |i: int| false),
            c != PickerCommand::Reload && !(old(self).toggles(key) is Some)
                ==> final(self).chosen() == old(self).chosen(),
            match old(self).toggles(key) {
                Some(i) => {
                    &&& final(self).chosen() == old(self).chosen().update(i, !old(self).chosen()[i])
                    &&& final(self).picked() == (if old(self).chosen()[i] {
                        old(self).picked().remove(old(self).shown()[i]@)
                    } else {
                        old(self).picked().insert(old(self).shown()[i]@)
                    })
                },
                None => final(self).picked() == old(self).picked(),
            },
    {
        // The length is read for its bound: pages are held to it.
        let _items = self.items.len();
        match self.current_screen {
            CurrentScreen::Main => {
                match key {
                    Input::Char('q') => {
                        self.current_screen = CurrentScreen::Exiting;
                        PickerCommand::Redraw
                    },
                    Input::Char('j') => {
                        self.current_screen = CurrentScreen::Popup(0);
                        PickerCommand::Redraw
                    },
                    Input::Char(ch) => {
                        match to_digit(ch) {
                            Some(d) => {
                                let cur = self.items.current_items();
                                if d > 0 && d <= cur.len() {
                                    proof {
                                        lemma_page_len(self.items@, self.items.current() as int, 9);
                                    }
                                    let path = cur[d - 1].clone();
                                    self.chosen[d - 1] = !self.chosen[d - 1];
                                    if self.chosen[d - 1] {
                                        self.cache.insert(path);
                                    } else {
                                        self.cache.remove(&path);
                                    }
                                }
                                PickerCommand::Redraw
                            },
                            None => PickerCommand::Ignore,
                        }
                    },
                    Input::Enter | Input::Right | Input::Down => {
                        if self.items.inc_page() {
                            self.current_screen = CurrentScreen::Finished;
                            PickerCommand::Redraw
                        } else {
                            self.chosen = [false; 9];
                            assert(self.chosen@ =~= Seq::new(9, |i: int| false));
                            PickerCommand::Reload
                        }
                    },
                    Input::Left | Input::Up => {
                        self.items.dec_page();
                        self.chosen = [false; 9];
                        assert(self.chosen@ =~= Seq::new(9, |i: int| false));
                        PickerCommand::Reload
                    },
                    _ => PickerCommand::Ignore,
                }
            },
            CurrentScreen::Popup(_) => {
                match key {
                    Input::Char(ch) => {
                        match to_digit(ch) {
                            Some(d) => {
                                let target = typed_page(self.items.page(), d);
                                self.items.set_page(target);
                                PickerCommand::Redraw
                            },
                            None => PickerCommand::Ignore,
                        }
                    },
                    Input::Backspace => {
                        let target = self.items.page() / 10;
                        self.items.set_page(target);
                        PickerCommand::Redraw
                    },
                    Input::Enter => {
                        self.current_screen = CurrentScreen::Main;
                        self.chosen = [false; 9];
                        assert(self.chosen@ =~= Seq::new(9, |i: int| false));
                        PickerCommand::Reload
                    },
                    _ => PickerCommand::Ignore,
                }
            },
            CurrentScreen::Finished => {
                match key {
                    Input::Char('q') => {
                        self.current_screen = CurrentScreen::Exiting;
                        PickerCommand::Redraw
                    },
                    _ => PickerCommand::Ignore,
                }
            },
            CurrentScreen::Exiting => {
                match key {
                    Input::Char('y') => PickerCommand::SaveAndQuit,
                    Input::Char('Y') => PickerCommand::Quit,
                    _ => {
                        self.current_screen = CurrentScreen::Main;
                        PickerCommand::Redraw
                    },
                }
            },
        }
    }

    /// Whether a page follows the current one.
    pub open spec fn has_next(&self) -> bool {
        (self.page() + 1) * 9 < self.all().len()
    }

    /// The index on the current page of the item whose mark `key` flips, if
    /// it flips one: on the main screen the digits 1 to 9 stand for the items
    /// that are shown.
    pub open spec fn toggles(&self, key: Input) -> Option<int> {
        if self.screen() == CurrentScreen::Main {
            match key {
                Input::Char(ch) => match digit_of(ch) {
                    Some(d) => if 0 < d <= self.shown().len() {
                        Some(d - 1)
                    } else {
                        None
                    },
                    None => None,
                },
                _ => None,
            }
        } else {
            None
        }
    }
}

/// Whether the key turns the page forward.
pub open spec fn is_forward(key: Input) -> bool {
    key == Input::Enter || key == Input::Right || key == Input::Down
}

/// Whether the key turns the page back.
pub open spec fn is_backward(key: Input) -> bool {
    key == Input::Left || key == Input::Up
}

/// Whether the key is the character of a digit.
pub open spec fn is_digit(key: Input) -> bool {
    key matches Input::Char(ch) && digit_of(ch) is Some
}

/// What the picker asks of its driver when `key` is pressed on `screen`.
pub open spec fn picker_command(screen: CurrentScreen, key: Input,
    has_next: bool) -> PickerCommand {
    match screen {
        CurrentScreen::Main => if key == Input::Char('q') || key == Input::Char('j') || is_digit(
            key,
        ) {
            PickerCommand::Redraw
        } else if is_forward(key) {
            if has_next {
                PickerCommand::Reload
            } else {
                PickerCommand::Redraw
            }
        } else if is_backward(key) {
            PickerCommand::Reload
        } else {
            PickerCommand::Ignore
        },
        CurrentScreen::Popup(_) => if is_digit(key) || key == Input::Backspace {
            PickerCommand::Redraw
        } else if key == Input::Enter {
            PickerCommand::Reload
        } else {
            PickerCommand::Ignore
        },
        CurrentScreen::Finished => if key == Input::Char('q') {
            PickerCommand::Redraw
        } else {
            PickerCommand::Ignore
        },
        CurrentScreen::Exiting => if key == Input::Char('y') {
            PickerCommand::SaveAndQuit
        } else if key == Input::Char('Y') {
            PickerCommand::Quit
        } else {
            PickerCommand::Redraw
        },
    }
}

/// The screen after `key` was pressed on `screen`.
pub open spec fn picker_screen(screen: CurrentScreen, key: Input, has_next: bool) -> CurrentScreen {
    match screen {
        CurrentScreen::Main => if key == Input::Char('q') {
            CurrentScreen::Exiting
        } else if key == Input::Char('j') {
            CurrentScreen::Popup(0)
        } else if is_forward(key) && !has_next {
            CurrentScreen::Finished
        } else {
            screen
        },
        CurrentScreen::Popup(_) => if key == Input::Enter {
            CurrentScreen::Main
        } else {
            screen
        },
        CurrentScreen::Finished => if key == Input::Char('q') {
            CurrentScreen::Exiting
        } else {
            screen
        },
        CurrentScreen::Exiting => if key == Input::Char('y') || key == Input::Char('Y') {
            screen
        } else {
            CurrentScreen::Main
        },
    }
}

/// The last page of a list of `len` items, nine to the page.
pub open spec fn last_page(len: int) -> int {
    (if len == 0 {
        0
    } else {
        len - 1
    }) / 9
}

/// The current page after `key` was pressed on `screen`.
pub open spec fn picker_page(screen: CurrentScreen, key: Input, page: int, len: int) -> int {
    match screen {
        CurrentScreen::Main => if is_forward(key) && (page + 1) * 9 < len {
            page + 1
        } else if is_backward(key) && page > 0 {
            page - 1
        } else {
            page
        },
        CurrentScreen::Popup(_) => match key {
            Input::Char(ch) => match digit_of(ch) {
                Some(d) => crate::items::least(page * 10 + d, last_page(len)),
                None => page,
            },
            Input::Backspace => crate::items::least(page / 10, last_page(len)),
            _ => page,
        },
        _ => page,
    }
}

} // verus!
