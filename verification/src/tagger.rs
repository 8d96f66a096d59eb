//! Tagging items page by page: the tags, the tag in hand, the marks of the
//! current page, and what each key does on each screen.

use crate::input::InputBuffer;
use crate::items::{differs, first_match, least, lemma_page_len, page_of, Items};
use crate::order::descending_pairs;
use crate::ordpaths::{list_has, Key};
use crate::picker::{digit_of, is_backward, is_digit, is_forward, to_digit, typed_page};
use crate::state::{CurrentScreen, Input};
use crate::tag::{other_than, parsed_score, scored_tags, Tag, TagRecord};
use vstd::prelude::*;

verus! {

/// What the tagger asks of its driver after a key.
#[derive(Debug, Clone, Copy, PartialEq, Eq, Structural)]
pub enum TaggerCommand {
    /// The key means nothing here: wait for the next one.
    Ignore,
    /// The screen changed: draw it again.
    Redraw,
    /// Another page is current or another tag is in hand: mark the items
    /// that have the tag, then draw.
    Reload,
    /// Save the record and leave.
    SaveAndQuit,
    /// Leave without saving.
    Quit,
}

/// Whether a character is an ASCII control character.
pub open spec fn is_control(c: char) -> bool {
    (c as u32) < 32 || c as u32 == 127
}

/// Whether `c` is an ASCII control character.
pub fn is_ascii_control(c: char) -> (b: bool)
    ensures
        b == is_control(c),
{
    (c as u32) < 32 || c as u32 == 127
}

/// The state of the tagging screens.
#[derive(Debug)]
pub struct Tagger {
    current_screen: CurrentScreen,
    items: Items<String, 4>,
    tags: Items<Tag, 9>,
    current_tag: Option<Tag>,
    chosen: [bool; 4],
    cache: TagRecord,
    input_buffer: InputBuffer<2>,
    output: String,
}

impl Tagger {
    /// The screen that is shown.
    pub closed spec fn screen(&self) -> CurrentScreen {
        self.current_screen
    }

    /// All items.
    pub closed spec fn all(&self) -> Seq<String> {
        self.items@
    }

    /// The current page of the items.
    pub closed spec fn page(&self) -> nat {
        self.items.current()
    }

    /// The tags as they are listed.
    pub closed spec fn tags(&self) -> Seq<Tag> {
        self.tags@
    }

    /// The current page of the tags.
    pub closed spec fn tags_page(&self) -> nat {
        self.tags.current()
    }

    /// The name of the tag in hand.
    pub closed spec fn current_name(&self) -> Option<Key> {
        match self.current_tag {
            Some(t) => Some(t.name@),
            None => None,
        }
    }

    /// Which items of the current page are marked.
    pub closed spec fn chosen(&self) -> Seq<bool> {
        self.chosen@
    }

    /// The record of tags and tagged items.
    pub closed spec fn record(&self) -> TagRecord {
        self.cache
    }

    /// The field of the form that the cursor is on.
    pub closed spec fn cursor(&self) -> nat {
        self.input_buffer.cursor()
    }

    /// The texts of the form.
    pub closed spec fn fields(&self) -> Seq<Seq<char>> {
        self.input_buffer.values()
    }

    /// Where the record is saved.
    pub closed spec fn saved_at(&self) -> Seq<char> {
        self.output@
    }

    /// The items of the current page.
    pub open spec fn shown(&self) -> Seq<String> {
        page_of(self.all(), self.page() as int, 4)
    }

    /// The tags of the current page of tags.
    pub open spec fn shown_tags(&self) -> Seq<Tag> {
        page_of(self.tags(), self.tags_page() as int, 9)
    }

    /// Whether a page of items follows the current one.
    pub open spec fn has_next(&self) -> bool {
        (self.page() + 1) * 4 < self.all().len()
    }

    /// The invariant of the representation.
    pub closed spec fn inv(&self) -> bool {
        &&& self.items.wf()
        &&& self.tags.wf()
        &&& self.cache.wf()
        &&& self.input_buffer.wf()
    }

    /// The invariant: the parts are sound and the screen is one of this tool.
    pub open spec fn wf(&self) -> bool {
        &&& self.inv()
        &&& (self.screen() matches CurrentScreen::Popup(mode) ==> mode <= 2)
        &&& self.fields().len() == 2
        &&& self.cursor() < 2
    }

    /// A tagger on the first page of `images`, with the record that was
    /// saved before. The form has a field for the name of a tag and one for
    /// its score.
    pub fn new(images: Vec<String>, cache: TagRecord, output: String) -> (t: Tagger)
        requires
            cache.wf(),
        ensures
            t.wf(),
            t.screen() == CurrentScreen::Main,
            t.all() == images@,
            t.page() == 0,
            t.tags_page() == 0,
            t.current_name() is None,
            t.chosen() == Seq::new(4, |i: int| false),
            t.record() == cache,
            t.cursor() == 0,
            t.saved_at() == output@,
            descending_pairs(scored_tags(t.tags())),
            scored_tags(t.tags()).to_multiset() == cache.tag_pairs().to_multiset(),
            forall|i: int| 0 <= i < 2 ==> (#[trigger] t.fields()[i]).len() == 0,
    {
        let tags = cache.to_items::<9>();
        let keys = ["TagName".to_owned(), "Score".to_owned()];
        let t = Tagger {
            current_screen: CurrentScreen::Main,
            items: Items::new(images),
            tags,
            current_tag: None,
            chosen: [false; 4],
            cache,
            input_buffer: InputBuffer::new(keys),
            output,
        };
        assert(t.chosen() =~= Seq::new(4, |i: int| false));
        t
    }

    /// The screen that is shown.
    pub fn current_screen(&self) -> (s: CurrentScreen)
        ensures
            s == self.screen(),
    {
        self.current_screen
    }

    /// The items, with the current page.
    pub fn items(&self) -> (it: &Items<String, 4>)
        ensures
            it@ == self.all(),
            it.current() == self.page(),
    {
        &self.items
    }

    /// The tags, with the current page of tags.
    pub fn tag_items(&self) -> (it: &Items<Tag, 9>)
        ensures
            it@ == self.tags(),
            it.current() == self.tags_page(),
    {
        &self.tags
    }

    /// The tag in hand.
    pub fn current_tag(&self) -> (t: &Option<Tag>)
        ensures
            match t {
                Some(tag) => self.current_name() == Some(tag.name@),
                None => self.current_name() is None,
            },
    {
        &self.current_tag
    }

    /// The marks of the current page.
    pub fn chosen_flags(&self) -> (c: [bool; 4])
        ensures
            c@ == self.chosen(),
    {
        self.chosen
    }

    /// The record of tags and tagged items.
    pub fn cache(&self) -> (c: &TagRecord)
        ensures
            *c == self.record(),
    {
        &self.cache
    }

    /// The form for a new tag.
    pub fn input_buffer(&self) -> (b: &InputBuffer<2>)
        ensures
            b.values() == self.fields(),
            b.cursor() == self.cursor(),
    {
        &self.input_buffer
    }

    /// Where the record is saved.
    pub fn output(&self) -> (p: &String)
        ensures
            p@ == self.saved_at(),
    {
        &self.output
    }

    /// The number of items before the current page.
    pub fn finished(&self) -> (n: usize)
        requires
            self.wf(),
        ensures
            n == 4 * self.page(),
    {
        let len = self.items.len();
        assert(self.items.current() * 4 <= len);
        4 * self.items.page()
    }

    /// Adds `tag` to the tags, in the list and in the record; a tag of the
    /// same name is replaced.
    pub fn new_tag(&mut self, tag: Tag)
        requires
            old(self).wf(),
        ensures
            final(self).wf(),
            final(self).screen() == old(self).screen(),
            final(self).all() == old(self).all(),
            final(self).page() == old(self).page(),
            final(self).chosen() == old(self).chosen(),
            final(self).current_name() == old(self).current_name(),
            final(self).fields() == old(self).fields(),
            final(self).cursor() == old(self).cursor(),
            final(self).saved_at() == old(self).saved_at(),
            final(self).record().scores() == old(self).record().scores().insert(
                tag.name@,
                tag.score,
            ),
            final(self).tags_page() == old(self).tags_page(),
            final(self).tags() == (if first_match(old(self).tags(), tag) < old(self).tags().len() {
                old(self).tags().update(first_match(old(self).tags(), tag), tag)
            } else {
                old(self).tags().push(tag)
            }),
            forall|item: Key|
                final(self).record().has_item(item) == old(self).record().has_item(item)
                    && final(self).record().names(item) == old(self).record().names(item),
    {
        let name = tag.name.clone();
        let score = tag.score;
        self.tags.push(tag);
        self.cache.insert_tag(name, score);
    }

    /// Removes the tag of that name from the list, from the record and from
    /// every item. The list of tags goes back to its last page if it now
    /// ends before the current one.
    pub fn remove_tag(&mut self, tag: &Tag)
        requires
            old(self).wf(),
        ensures
            final(self).wf(),
            final(self).screen() == old(self).screen(),
            final(self).all() == old(self).all(),
            final(self).page() == old(self).page(),
            final(self).chosen() == old(self).chosen(),
            final(self).current_name() == old(self).current_name(),
            final(self).fields() == old(self).fields(),
            final(self).cursor() == old(self).cursor(),
            final(self).saved_at() == old(self).saved_at(),
            final(self).record().scores() == old(self).record().scores().remove(tag.name@),
            final(self).tags() == old(self).tags().filter(differs(*tag)),
            final(self).tags_page() == least(
                old(self).tags_page() as int,
                last_page_of(final(self).tags().len() as int, 9),
            ),
            forall|item: Key|
                final(self).record().has_item(item) == old(self).record().has_item(item),
            forall|item: Key|
                old(self).record().has_item(item) ==> final(self).record().names(item)
                    == old(self).record().names(item).filter(other_than(tag.name@)),
    {
        self.tags.remove(tag);
        let page = self.tags.page();
        self.tags.set_page(page);
        self.cache.remove(&tag.name);
    }

    /// Marks the items of the current page that have the tag in hand, and
    /// takes the mark from those that have an entry without it. Without a
    /// tag in hand nothing changes.
    pub fn mark_page(&mut self)
        requires
            old(self).wf(),
        ensures
            final(self).wf(),
            final(self).screen() == old(self).screen(),
            final(self).all() == old(self).all(),
            final(self).page() == old(self).page(),
            final(self).current_name() == old(self).current_name(),
            final(self).record() == old(self).record(),
            final(self).saved_at() == old(self).saved_at(),
            final(self).tags() == old(self).tags(),
            final(self).tags_page() == old(self).tags_page(),
            final(self).fields() == old(self).fields(),
            final(self).cursor() == old(self).cursor(),
            final(self).chosen().len() == 4,
            forall|i: int|
                0 <= i < 4 ==> (#[trigger] final(self).chosen()[i])
                    == (if old(self).current_name() is Some && i < old(self).shown().len()
                    && old(self).record().has_item(old(self).shown()[i]@) {
                    old(self).record().names(old(self).shown()[i]@).contains(
                        old(self).current_name()->0,
                    )
                } else {
                    old(self).chosen()[i]
                }),
    {
        let ghost shown = self.shown();
        proof {
            lemma_page_len(self.items@, self.items.current() as int, 4);
        }
        let n = self.items.current_items().len();
        let mut i: usize = 0;
        while i < n
            invariant
                i <= n <= 4,
                n == shown.len(),
                shown == old(self).shown(),
                self.wf(),
                self.current_screen == old(self).current_screen,
                self.items == old(self).items,
                self.tags == old(self).tags,
                self.cache == old(self).cache,
                self.current_tag == old(self).current_tag,
                self.input_buffer == old(self).input_buffer,
                self.output == old(self).output,
                self.chosen@.len() == 4,
                forall|j: int|
                    0 <= j < 4 ==> (#[trigger] self.chosen@[j])
                        == (if old(self).current_name() is Some
                        && j < i && old(self).record().has_item(shown[j]@) {
                        old(self).record().names(shown[j]@).contains(old(self).current_name()->0)
                    } else {
                        old(self).chosen@[j]
                    }),
            decreases n - i,
        {
            let cur = self.items.current_items();
            match &self.current_tag {
                Some(tag) => {
                    match self.cache.get_tags(&cur[i]) {
                        Some(names) => {
                            let has = list_has(names, &tag.name);
                            self.chosen[i] = has;
                        },
                        None => {},
                    }
                },
                None => {},
            }
            i += 1;
        }
    }

    /// Decides what a key press means on the screen that is shown, and
    /// changes page, marks, tags, form and screen accordingly.
    pub fn on_key(&mut self, key: Input) -> (c: TaggerCommand)
        requires
            old(self).wf(),
        ensures
            final(self).wf(),
            final(self).all() == old(self).all(),
            final(self).chosen().len() == 4,
            c == tagger_command(
                old(self).screen(),
                key,
                old(self).has_next(),
                old(self).current_name() is Some,
                old(self).toggles(key) is Some,
                parsed_score(old(self).fields()[1]) is Some,
                old(self).cursor() as int,
            ),
            final(self).screen() == tagger_screen(
                old(self).screen(),
                key,
                old(self).has_next(),
                old(self).current_name() is Some,
                parsed_score(old(self).fields()[1]) is Some,
                old(self).cursor() as int,
            ),
            c == TaggerCommand::Reload ==> final(self).chosen() == Seq::new(4, |i: int| false),
            c != TaggerCommand::Reload && old(self).toggles(key) is None ==> final(self).chosen()
                == old(self).chosen(),
            final(self).page() == tagger_page(
                old(self).screen(),
                key,
                old(self).page() as int,
                old(self).all().len() as int,
            ),
            match old(self).toggles(key) {
                Some(i) => {
                    let item = old(self).shown()[i]@;
                    let name = old(self).current_name()->0;
                    let before = if old(self).record().has_item(item) {
                        old(self).record().names(item)
                    } else {
                        Seq::<Key>::empty()
                    };
                    &&& final(self).chosen() == old(self).chosen().update(i, !old(self).chosen()[i])
                    &&& final(self).record().scores() == old(self).record().scores()
                    &&& final(self).current_name() == old(self).current_name()
                    &&& !old(self).chosen()[i] ==> final(self).record().names(item) == before.push(
                        name,
                    )
                    &&& old(self).chosen()[i] && old(self).record().has_item(item)
                        ==> final(self).record().names(item) == before.filter(other_than(name))
                },
                None => true,
            },
            !(old(self).screen() matches CurrentScreen::Popup(_)) && old(self).toggles(key) is None
                ==> final(self).record() == old(self).record(),
            !(old(self).screen() == CurrentScreen::Popup(1)) ==> final(self).fields()
                == old(self).fields() && final(self).cursor() == old(self).cursor()
                && final(self).tags() == old(self).tags(),
            !(old(self).screen() == CurrentScreen::Popup(2)) ==> final(self).current_name()
                == old(self).current_name(),
            !(old(self).screen() matches CurrentScreen::Popup(_)) ==> final(self).tags_page()
                == old(self).tags_page(),
            final(self).saved_at() == old(self).saved_at(),
            old(self).screen() == CurrentScreen::Popup(2) ==> final(self).tags_page()
                == tag_list_page(key, old(self).tags_page() as int, old(self).tags().len() as int),
            old(self).screen() == CurrentScreen::Popup(2) ==> final(self).record()
                == old(self).record() && final(self).current_name() == (match old(self).picks(key) {
                Some(i) => Some(old(self).shown_tags()[i].name@),
                None => old(self).current_name(),
            }),
            old(self).screen() == CurrentScreen::Popup(1) ==> match key {
                Input::Char(ch) => !is_control(ch) ==> final(self).fields()
                    == old(self).fields().update(
                    old(self).cursor() as int,
                    old(self).fields()[old(self).cursor() as int].push(ch),
                ) && final(self).cursor() == old(self).cursor(),
                Input::Tab => final(self).cursor() == (old(self).cursor() + 1) % 2
                    && final(self).fields() == old(self).fields(),
                Input::BackTab => final(self).cursor() == (old(self).cursor() + 1) % 2
                    && final(self).fields() == old(self).fields(),
                Input::Backspace => final(self).cursor() == old(self).cursor()
                    && final(self).fields() == old(self).fields().update(
                    old(self).cursor() as int,
                    if old(self).fields()[old(self).cursor() as int].len() > 0 {
                        old(self).fields()[old(self).cursor() as int].drop_last()
                    } else {
                        old(self).fields()[old(self).cursor() as int]
                    },
                ),
                Input::Esc => final(self).cursor() == 0 && final(self).record()
                    == old(self).record() && final(self).fields()[0].len() == 0
                    && final(self).fields()[1].len() == 0,
                Input::Enter => match parsed_score(old(self).fields()[1]) {
                    Some(score) => final(self).record().scores()
                        == old(self).record().scores().insert(old(self).fields()[0], score),
                    None => if old(self).cursor() == 0 {
                        final(self).cursor() == 1 && final(self).fields()
                            == old(self).fields().update(1, Seq::<char>::empty())
                            && final(self).record() == old(self).record()
                    } else {
                        final(self).record().scores() == old(self).record().scores().remove(
                            old(self).fields()[0],
                        )
                    },
                },
                _ => true,
            },
    {
        // The lengths are read for their bound: pages are held to them.
        let _items = self.items.len();
        let _tags = self.tags.len();
        match self.current_screen {
            CurrentScreen::Main => {
                match key {
                    Input::Char('q') => {
                        self.current_screen = CurrentScreen::Exiting;
                        TaggerCommand::Redraw
                    },
                    Input::Char('j') => {
                        self.current_screen = CurrentScreen::Popup(0);
                        TaggerCommand::Redraw
                    },
                    Input::Char('n') => {
                        self.current_screen = CurrentScreen::Popup(1);
                        TaggerCommand::Redraw
                    },
                    Input::Char('v') => {
                        self.current_screen = CurrentScreen::Popup(2);
                        TaggerCommand::Redraw
                    },
                    Input::Char(ch) => {
                        match to_digit(ch) {
                            Some(d) => {
                                let tag = match &self.current_tag {
                                    Some(tag) => tag.clone(),
                                    None => {
                                        self.current_screen = CurrentScreen::Popup(2);
                                        return TaggerCommand::Redraw;
                                    },
                                };
                                let cur = self.items.current_items();
                                proof {
                                    lemma_page_len(self.items@, self.items.current() as int, 4);
                                }
                                if d > 0 && d <= cur.len() {
                                    let path = cur[d - 1].clone();
                                    self.chosen[d - 1] = !self.chosen[d - 1];
                                    if self.chosen[d - 1] {
                                        self.cache.tag(&path, &tag);
                                    } else {
                                        self.cache.untag(&path, &tag);
                                    }
                                    TaggerCommand::Redraw
                                } else {
                                    TaggerCommand::Ignore
                                }
                            },
                            None => TaggerCommand::Ignore,
                        }
                    },
                    Input::Enter | Input::Right | Input::Down => {
                        if self.items.inc_page() {
                            self.current_screen = CurrentScreen::Finished;
                            TaggerCommand::Redraw
                        } else {
                            self.chosen = [false; 4];
                            assert(self.chosen@ =~= Seq::new(4, |i: int| false));
                            TaggerCommand::Reload
                        }
                    },
                    Input::Left | Input::Up => {
                        self.items.dec_page();
                        self.chosen = [false; 4];
                        assert(self.chosen@ =~= Seq::new(4, |i: int| false));
                        TaggerCommand::Reload
                    },
                    _ => TaggerCommand::Ignore,
                }
            },
            CurrentScreen::Popup(0) => {
                match key {
                    Input::Char(ch) => {
                        match to_digit(ch) {
                            Some(d) => {
                                let target = typed_page(self.items.page(), d);
                                self.items.set_page(target);
                                TaggerCommand::Redraw
                            },
                            None => TaggerCommand::Ignore,
                        }
                    },
                    Input::Backspace => {
                        let target = self.items.page() / 10;
                        self.items.set_page(target);
                        TaggerCommand::Redraw
                    },
                    Input::Enter => {
                        self.chosen = [false; 4];
                        assert(self.chosen@ =~= Seq::new(4, |i: int| false));
                        self.current_screen = CurrentScreen::Main;
                        TaggerCommand::Reload
                    },
                    _ => TaggerCommand::Ignore,
                }
            },
            CurrentScreen::Popup(1) => {
                match key {
                    Input::Char(ch) => {
                        if !is_ascii_control(ch) {
                            self.input_buffer.push(ch);
                            TaggerCommand::Redraw
                        } else {
                            TaggerCommand::Ignore
                        }
                    },
                    Input::Tab => {
                        self.input_buffer.next();
                        TaggerCommand::Redraw
                    },
                    Input::BackTab => {
                        self.input_buffer.prev();
                        TaggerCommand::Redraw
                    },
                    Input::Backspace => {
                        self.input_buffer.pop();
                        TaggerCommand::Redraw
                    },
                    Input::Esc => {
                        self.input_buffer.clear_all();
                        self.current_screen = CurrentScreen::Main;
                        self.chosen = [false; 4];
                        assert(self.chosen@ =~= Seq::new(4, |i: int| false));
                        TaggerCommand::Reload
                    },
                    Input::Enter => {
                        let parsed = Tag::try_from_fields(
                            self.input_buffer.value(0),
                            self.input_buffer.value(1),
                        );
                        match parsed {
                            Ok(tag) => {
                                self.new_tag(tag);
                                self.input_buffer.clear_all();
                                self.current_screen = CurrentScreen::Main;
                                self.chosen = [false; 4];
                                assert(self.chosen@ =~= Seq::new(4, |i: int| false));
                                TaggerCommand::Reload
                            },
                            Err(_) => {
                                if self.input_buffer.position() == 0 {
                                    self.input_buffer.set_cursor(1);
                                    self.input_buffer.clear();
                                    TaggerCommand::Redraw
                                } else {
                                    let tag = Tag::from_pair(self.input_buffer.value(0), &0);
                                    self.remove_tag(&tag);
                                    self.input_buffer.clear_all();
                                    self.current_screen = CurrentScreen::Main;
                                    self.chosen = [false; 4];
                                    assert(self.chosen@ =~= Seq::new(4, |i: int| false));
                                    TaggerCommand::Reload
                                }
                            },
                        }
                    },
                    _ => TaggerCommand::Ignore,
                }
            },
            CurrentScreen::Popup(_) => {
                match key {
                    Input::Char(ch) => {
                        match to_digit(ch) {
                            Some(d) => {
                                let tags = self.tags.current_items();
                                if d > 0 && d <= tags.len() {
                                    self.current_tag = Some(tags[d - 1].clone());
                                }
                                self.chosen = [false; 4];
                                assert(self.chosen@ =~= Seq::new(4, |i: int| false));
                                self.current_screen = CurrentScreen::Main;
                                TaggerCommand::Reload
                            },
                            None => TaggerCommand::Ignore,
                        }
                    },
                    Input::Up | Input::Left => {
                        if self.tags.dec_page() {
                            self.tags.set_page(usize::MAX);
                        }
                        TaggerCommand::Redraw
                    },
                    Input::Down | Input::Right => {
                        if self.tags.inc_page() {
                            self.tags.set_page(0);
                        }
                        TaggerCommand::Redraw
                    },
                    Input::Esc => {
                        self.current_screen = CurrentScreen::Main;
                        TaggerCommand::Redraw
                    },
                    _ => TaggerCommand::Ignore,
                }
            },
            CurrentScreen::Finished => {
                match key {
                    Input::Char('q') => {
                        self.current_screen = CurrentScreen::Exiting;
                        TaggerCommand::Redraw
                    },
                    _ => {
                        self.current_screen = CurrentScreen::Main;
                        TaggerCommand::Redraw
                    },
                }
            },
            CurrentScreen::Exiting => {
                match key {
                    Input::Char('y') => TaggerCommand::SaveAndQuit,
                    Input::Char('Y') => TaggerCommand::Quit,
                    _ => {
                        self.current_screen = CurrentScreen::Main;
                        TaggerCommand::Redraw
                    },
                }
            },
        }
    }

    /// The index on the current page of tags of the tag that `key` takes in
    /// hand, if it takes one: the digits stand for the tags that are shown.
    pub open spec fn picks(&self, key: Input) -> Option<int> {
        match key {
            Input::Char(ch) => match digit_of(ch) {
                Some(d) => if 0 < d <= self.shown_tags().len() {
                    Some(d - 1)
                } else {
                    None
                },
                None => None,
            },
            _ => None,
        }
    }

    /// The index on the current page of the item whose mark `key` flips, if
    /// it flips one: on the main screen, with a tag in hand, the digits
    /// stand for the items that are shown.
    pub open spec fn toggles(&self, key: Input) -> Option<int> {
        if self.screen() == CurrentScreen::Main && self.current_name() is Some {
            match key {
                Input::Char(ch) => match digit_of(ch) {
                    Some(d) => if 0 < d <= self.shown().len() {
                        Some(d - 1)
                    } else {
                        None
                    },
                    None => None,
                },
                _ => None,
            }
        } else {
            None
        }
    }
}

/// The current page of the list of tags after `key` was pressed while the
/// list is shown: the keys that go back and forth go round at the ends.
pub open spec fn tag_list_page(key: Input, page: int, len: int) -> int {
    if is_backward(key) {
        if page > 0 {
            page - 1
        } else {
            last_page_of(len, 9)
        }
    } else if key == Input::Down || key == Input::Right {
        if (page + 1) * 9 < len {
            page + 1
        } else {
            0
        }
    } else {
        page
    }
}

/// The last page of a list of `len` items, `n` to the page.
pub open spec fn last_page_of(len: int, n: int) -> int {
    (if len == 0 {
        0
    } else {
        len - 1
    }) / n
}

/// The current page of the items after `key` was pressed on `screen`.
pub open spec fn tagger_page(screen: CurrentScreen, key: Input, page: int, len: int) -> int {
    match screen {
        CurrentScreen::Main => if is_menu(key) || is_digit(key) {
            page
        } else if is_forward(key) && (page + 1) * 4 < len {
            page + 1
        } else if is_backward(key) && page > 0 {
            page - 1
        } else {
            page
        },
        CurrentScreen::Popup(mode) => if mode == 0 {
            match key {
                Input::Char(ch) => match digit_of(ch) {
                    Some(d) => least(page * 10 + d, last_page_of(len, 4)),
                    None => page,
                },
                Input::Backspace => least(page / 10, last_page_of(len, 4)),
                _ => page,
            }
        } else {
            page
        },
        _ => page,
    }
}

/// Whether the key is one of the letters that open a screen from the main one.
pub open spec fn is_menu(key: Input) -> bool {
    key == Input::Char('q') || key == Input::Char('j') || key == Input::Char('n') || key
        == Input::Char('v')
}

/// What the tagger asks of its driver when `key` is pressed on `screen`.
pub open spec fn tagger_command(
    screen: CurrentScreen,
    key: Input,
    has_next: bool,
    in_hand: bool,
    toggles: bool,
    parses: bool,
    cursor: int,
) -> TaggerCommand {
    match screen {
        CurrentScreen::Main => if is_menu(key) {
            TaggerCommand::Redraw
        } else if is_digit(key) {
            if !in_hand || toggles {
                TaggerCommand::Redraw
            } else {
                TaggerCommand::Ignore
            }
        } else if is_forward(key) {
            if has_next {
                TaggerCommand::Reload
            } else {
                TaggerCommand::Redraw
            }
        } else if is_backward(key) {
            TaggerCommand::Reload
        } else {
            TaggerCommand::Ignore
        },
        CurrentScreen::Popup(mode) => if mode == 0 {
            if is_digit(key) || key == Input::Backspace {
                TaggerCommand::Redraw
            } else if key == Input::Enter {
                TaggerCommand::Reload
            } else {
                TaggerCommand::Ignore
            }
        } else if mode == 1 {
            match key {
                Input::Char(ch) => if is_control(ch) {
                    TaggerCommand::Ignore
                } else {
                    TaggerCommand::Redraw
                },
                Input::Tab | Input::BackTab | Input::Backspace => TaggerCommand::Redraw,
                Input::Esc => TaggerCommand::Reload,
                Input::Enter => if parses || cursor != 0 {
                    TaggerCommand::Reload
                } else {
                    TaggerCommand::Redraw
                },
                _ => TaggerCommand::Ignore,
            }
        } else {
            if is_digit(key) {
                TaggerCommand::Reload
            } else if is_forward(key) && key != Input::Enter || is_backward(key) || key
                == Input::Esc {
                TaggerCommand::Redraw
            } else {
                TaggerCommand::Ignore
            }
        },
        CurrentScreen::Finished => TaggerCommand::Redraw,
        CurrentScreen::Exiting => if key == Input::Char('y') {
            TaggerCommand::SaveAndQuit
        } else if key == Input::Char('Y') {
            TaggerCommand::Quit
        } else {
            TaggerCommand::Redraw
        },
    }
}

/// The screen after `key` was pressed on `screen`.
pub open spec fn tagger_screen(
    screen: CurrentScreen,
    key: Input,
    has_next: bool,
    in_hand: bool,
    parses: bool,
    cursor: int,
) -> CurrentScreen {
    match screen {
        CurrentScreen::Main => if key == Input::Char('q') {
            CurrentScreen::Exiting
        } else if key == Input::Char('j') {
            CurrentScreen::Popup(0)
        } else if key == Input::Char('n') {
            CurrentScreen::Popup(1)
        } else if key == Input::Char('v') {
            CurrentScreen::Popup(2)
        } else if is_digit(key) && !in_hand {
            CurrentScreen::Popup(2)
        } else if is_forward(key) && !has_next {
            CurrentScreen::Finished
        } else {
            screen
        },
        CurrentScreen::Popup(mode) => if mode == 0 {
            if key == Input::Enter {
                CurrentScreen::Main
            } else {
                screen
            }
        } else if mode == 1 {
            if key == Input::Esc || (key == Input::Enter && (parses || cursor != 0)) {
                CurrentScreen::Main
            } else {
                screen
            }
        } else {
            if is_digit(key) || key == Input::Esc {
                CurrentScreen::Main
            } else {
                screen
            }
        },
        CurrentScreen::Finished => if key == Input::Char('q') {
            CurrentScreen::Exiting
        } else {
            CurrentScreen::Main
        },
        CurrentScreen::Exiting => if key == Input::Char('y') || key == Input::Char('Y') {
            screen
        } else {
            CurrentScreen::Main
        },
    }
}

} // verus!
