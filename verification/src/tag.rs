//! Tags with their scores, and the record of which item has which tags.

use crate::assoc::Assoc;
use crate::items::Items;
use crate::order::{descending_pairs, scored_of, sort_scored};
use crate::ordpaths::{keys_of, Key};
use vstd::prelude::*;

verus! {

/// A tag: a name and the score that the tag stands for.
#[derive(Debug)]
pub struct Tag {
    pub name: String,
    pub score: i64,
}

impl Tag {
    /// The tag with the given name and score.
    pub fn from_pair(name: &String, score: &i64) -> (t: Tag)
        ensures
            t.name@ == name@,
            t.score == *score,
    {
        Tag { name: name.clone(), score: *score }
    }

    /// The tag with the given name and the score that was read for it;
    /// an error where no score could be read.
    pub fn with_score(name: &String, score: Option<i64>) -> (r: Result<Tag, ()>)
        ensures
            match r {
                Ok(t) => score == Some(t.score) && t.name@ == name@,
                Err(_) => score is None,
            },
    {
        match score {
            Some(score) => Ok(Tag { name: name.clone(), score }),
            None => Err(()),
        }
    }

    /// The tag that two fields of text stand for: the name as it is, the
    /// score read as a number. An error where the second field is no number.
    pub fn try_from_fields(name: &String, score: &String) -> (r: Result<Tag, ()>)
        ensures
            match r {
                Ok(t) => parsed_score(score@) == Some(t.score) && t.name@ == name@,
                Err(_) => parsed_score(score@) is None,
            },
    {
        Tag::with_score(name, parse_score(score))
    }
}

impl Clone for Tag {
    fn clone(&self) -> (t: Tag)
        ensures
            t.name@ == self.name@,
            t.score == self.score,
    {
        Tag { name: self.name.clone(), score: self.score }
    }
}

impl PartialEq for Tag {
    /// Tags are the same when their names are.
    fn eq(&self, other: &Tag) -> (b: bool) {
        self.name == other.name
    }
}

impl vstd::std_specs::cmp::PartialEqSpecImpl for Tag {
    open spec fn obeys_eq_spec() -> bool {
        true
    }

    open spec fn eq_spec(&self, other: &Tag) -> bool {
        self.name@ == other.name@
    }
}

/// The number that `str::parse::<i64>` reads from a text, or `None` where it
/// reads none.
pub uninterp spec fn parsed_score(text: Seq<char>) -> Option<i64>;

/// `str::parse` of std for `i64`: the number that the text is the decimal
/// writing of, with an optional sign; an error for any other text and for a
/// number outside `i64`. The result depends on the text alone.
#[verifier::external_body]
fn parse_score(text: &String) -> (r: Option<i64>)
    ensures
        r == parsed_score(text@),
{
    text.parse().ok()
}

/// The tags of a list of pairs in ascending order, best first: the list the
/// other way round.
pub fn best_first(sorted: &Vec<(i64, String)>) -> (tags: Vec<Tag>)
    ensures
        scored_tags(tags@) == scored_of(sorted@).reverse(),
{
    let n = sorted.len();
    let mut tags: Vec<Tag> = Vec::new();
    let mut k: usize = n;
    while k > 0
        invariant
            k <= n,
            n == sorted@.len(),
            tags@.len() == n - k,
            forall|j: int|
                0 <= j < tags@.len() ==> ((#[trigger] tags@[j]).score, tags@[j].name@) == scored_of(
                    sorted@,
                )[n - 1 - j],
        decreases k,
    {
        k -= 1;
        tags.push(Tag::from_pair(&sorted[k].1, &sorted[k].0));
    }
    assert(scored_tags(tags@) =~= scored_of(sorted@).reverse());
    tags
}

/// The tags of a list as pairs of score and name.
pub open spec fn scored_tags(tags: Seq<Tag>) -> Seq<(i64, Key)> {
    Seq::new(tags.len(), |i: int| (tags[i].score, tags[i].name@))
}

/// The test that keeps every name but `name`.
pub open spec fn other_than(name: Key) -> spec_fn(Key) -> bool {
    |k: Key| k != name
}

/// The names of `list` without `name`.
pub fn without(list: &Vec<String>, name: &String) -> (out: Vec<String>)
    ensures
        keys_of(out@) == keys_of(list@).filter(other_than(name@)),
{
    let ghost all = keys_of(list@);
    let mut out: Vec<String> = Vec::new();
    let mut i: usize = 0;
    proof {
        reveal(Seq::filter);
        assert(all.take(0).filter(other_than(name@)) =~= Seq::<Key>::empty());
        assert(keys_of(out@) =~= Seq::<Key>::empty());
    }
    while i < list.len()
        invariant
            i <= list@.len(),
            all == keys_of(list@),
            keys_of(out@) == all.take(i as int).filter(other_than(name@)),
        decreases list@.len() - i,
    {
        let ghost prev = keys_of(out@);
        proof {
            assert(all.take(i as int + 1).drop_last() =~= all.take(i as int));
            assert(all.take(i as int + 1).last() == list@[i as int]@);
            assert(all.take(i as int + 1).filter(other_than(name@)) == (if list@[i as int]@
                != name@ {
                prev.push(list@[i as int]@)
            } else {
                prev
            })) by {
                reveal(Seq::filter);
            }
        }
        if list[i] != *name {
            out.push(list[i].clone());
            assert(keys_of(out@) =~= prev.push(list@[i as int]@));
        }
        i += 1;
    }
    assert(all.take(i as int) =~= all);
    out
}

/// The scores that a list of tags gives: of two tags with the same name the
/// later one counts.
pub open spec fn scores_of(tags: Seq<(String, i64)>) -> Map<Key, i64>
    decreases tags.len(),
{
    if tags.len() == 0 {
        Map::empty()
    } else {
        scores_of(tags.drop_last()).insert(tags.last().0@, tags.last().1)
    }
}

/// The names of the tags of each item that a list of tagged items gives: of
/// two entries for the same item the later one counts.
pub open spec fn listed_of(tagged: Seq<(String, Vec<String>)>) -> Map<Key, Seq<Key>>
    decreases tagged.len(),
{
    if tagged.len() == 0 {
        Map::empty()
    } else {
        listed_of(tagged.drop_last()).insert(tagged.last().0@, keys_of(tagged.last().1@))
    }
}

/// The tags that exist, and the names of the tags of each item.
#[derive(Debug)]
pub struct TagRecord {
    tags: Assoc<i64>,
    tagged: Assoc<Vec<String>>,
}

impl TagRecord {
    /// The score of each tag.
    pub closed spec fn scores(&self) -> Map<Key, i64> {
        self.tags@
    }

    /// Whether the record has an entry for `item`.
    pub closed spec fn has_item(&self, item: Key) -> bool {
        self.tagged@.dom().contains(item)
    }

    /// The names of the tags of `item`, in the order in which they were given.
    pub closed spec fn names(&self, item: Key) -> Seq<Key> {
        keys_of(self.tagged@[item]@)
    }

    /// The invariant of the representation.
    pub closed spec fn wf(&self) -> bool {
        self.tags.wf() && self.tagged.wf()
    }

    /// The pairs of score and name of the tags, in stored order.
    pub closed spec fn tag_pairs(&self) -> Seq<(i64, Key)> {
        Seq::new(self.tags.names().len(), |i: int| (self.tags.values()[i], self.tags.names()[i]))
    }

    /// A record without tags and items.
    pub fn new() -> (r: TagRecord)
        ensures
            r.wf(),
            r.scores() == Map::<Key, i64>::empty(),
            forall|item: Key| !r.has_item(item),
    {
        TagRecord { tags: Assoc::new(), tagged: Assoc::new() }
    }

    /// The record of the given tags and tagged items; of two entries with
    /// the same name the later one counts.
    pub fn from_parts(tags: Vec<(String, i64)>, tagged: Vec<(String, Vec<String>)>) -> (r:
        TagRecord)
        ensures
            r.wf(),
            r.scores() == scores_of(tags@),
            forall|item: Key| r.has_item(item) == listed_of(tagged@).dom().contains(item),
            forall|item: Key| r.has_item(item) ==> r.names(item) == listed_of(tagged@)[item],
    {
        let mut r = TagRecord::new();
        let mut i: usize = 0;
        assert(tags@.take(0) =~= Seq::<(String, i64)>::empty());
        assert(r.tagged@ =~= Map::<Key, Vec<String>>::empty()) by {
            assert forall|item: Key| !r.tagged@.dom().contains(item) by {
                assert(!r.has_item(item));
            }
        }
        while i < tags.len()
            invariant
                i <= tags@.len(),
                r.wf(),
                r.tags@ == scores_of(tags@.take(i as int)),
                r.tagged@ == Map::<Key, Vec<String>>::empty(),
            decreases tags@.len() - i,
        {
            proof {
                assert(tags@.take(i as int + 1).drop_last() =~= tags@.take(i as int));
            }
            r.tags.insert(tags[i].0.clone(), tags[i].1);
            i += 1;
        }
        assert(tags@.take(i as int) =~= tags@);
        let mut j: usize = 0;
        assert(tagged@.take(0) =~= Seq::<(String, Vec<String>)>::empty());
        assert(Map::<Key, Seq<Key>>::empty().dom() =~= r.tagged@.dom());
        while j < tagged.len()
            invariant
                j <= tagged@.len(),
                r.wf(),
                r.tags@ == scores_of(tags@),
                r.tagged@.dom() == listed_of(tagged@.take(j as int)).dom(),
                forall|item: Key|
                    r.tagged@.dom().contains(item) ==> keys_of(r.tagged@[item]@) == listed_of(
                        tagged@.take(j as int),
                    )[item],
            decreases tagged@.len() - j,
        {
            proof {
                assert(tagged@.take(j as int + 1).drop_last() =~= tagged@.take(j as int));
            }
            let list = tagged[j].1.clone();
            assert(keys_of(list@) =~= keys_of(tagged@[j as int].1@));
            r.tagged.insert(tagged[j].0.clone(), list);
            j += 1;
        }
        assert(tagged@.take(j as int) =~= tagged@);
        r
    }

    /// The tags with their scores, for saving.
    pub fn tags(&self) -> (a: &Assoc<i64>)
        ensures
            a@ == self.scores(),
    {
        &self.tags
    }

    /// The items with the names of their tags, for saving.
    pub fn tagged(&self) -> (a: &Assoc<Vec<String>>)
        ensures
            forall|item: Key| a@.dom().contains(item) == self.has_item(item),
            forall|item: Key| self.has_item(item) ==> keys_of(a@[item]@) == self.names(item),
    {
        &self.tagged
    }

    /// The names of the tags of `item`, if the record has an entry for it.
    pub fn get_tags(&self, item: &String) -> (r: Option<&Vec<String>>)
        requires
            self.wf(),
        ensures
            match r {
                Some(list) => self.has_item(item@) && keys_of(list@) == self.names(item@),
                None => !self.has_item(item@),
            },
    {
        self.tagged.get(item)
    }

    /// Adds a tag, or gives a tag that exists a new score.
    pub fn insert_tag(&mut self, name: String, score: i64)
        requires
            old(self).wf(),
        ensures
            final(self).wf(),
            final(self).scores() == old(self).scores().insert(name@, score),
            forall|item: Key| final(self).has_item(item) == old(self).has_item(item),
            forall|item: Key| final(self).names(item) == old(self).names(item),
    {
        self.tags.insert(name, score);
    }

    /// Gives `item` the tag `tag`, also where it has the tag already.
    pub fn tag(&mut self, item: &String, tag: &Tag)
        requires
            old(self).wf(),
        ensures
            final(self).wf(),
            final(self).scores() == old(self).scores(),
            final(self).has_item(item@),
            final(self).names(item@) == (if old(self).has_item(item@) {
                old(self).names(item@)
            } else {
                Seq::<Key>::empty()
            }).push(tag.name@),
            forall|other: Key|
                other != item@ ==> final(self).has_item(other) == old(self).has_item(other)
                    && final(self).names(other) == old(self).names(other),
    {
        let mut list = match self.tagged.remove(item) {
            Some(list) => list,
            None => Vec::new(),
        };
        let ghost prev = keys_of(list@);
        list.push(tag.name.clone());
        assert(keys_of(list@) =~= prev.push(tag.name@));
        self.tagged.insert(item.clone(), list);
    }

    /// Takes the tag `tag` from `item`, as often as the item has it.
    pub fn untag(&mut self, item: &String, tag: &Tag)
        requires
            old(self).wf(),
        ensures
            final(self).wf(),
            final(self).scores() == old(self).scores(),
            forall|other: Key| final(self).has_item(other) == old(self).has_item(other),
            old(self).has_item(item@) ==> final(self).names(item@) == old(self).names(
                item@,
            ).filter(other_than(tag.name@)),
            forall|other: Key|
                other != item@ ==> final(self).names(other) == old(self).names(other),
    {
        match self.tagged.position(item) {
            Some(i) => {
                proof {
                    self.tagged.lemma_entry(i as int);
                }
                let kept = without(self.tagged.value_at(i), &tag.name);
                self.tagged.set_at(i, kept);
            },
            None => {},
        }
    }

    /// Removes the tag `tag` altogether: from the tags, and from every item.
    pub fn remove(&mut self, tag: &String)
        requires
            old(self).wf(),
        ensures
            final(self).wf(),
            final(self).scores() == old(self).scores().remove(tag@),
            forall|item: Key| final(self).has_item(item) == old(self).has_item(item),
            forall|item: Key|
                old(self).has_item(item) ==> final(self).names(item) == old(self).names(
                    item,
                ).filter(other_than(tag@)),
    {
        self.tags.remove(tag);
        let ghost before = self.tagged;
        let n = self.tagged.len();
        let mut i: usize = 0;
        while i < n
            invariant
                i <= n,
                n == before.names().len(),
                before.wf(),
                self.tagged.wf(),
                self.tags.wf(),
                self.tags@ == old(self).tags@.remove(tag@),
                self.tagged.names() == before.names(),
                self.tagged.values().len() == n,
                before.values().len() == n,
                before == old(self).tagged,
                forall|j: int|
                    0 <= j < n ==> keys_of((#[trigger] self.tagged.values()[j])@) == (if j < i {
                        keys_of(before.values()[j]@).filter(other_than(tag@))
                    } else {
                        keys_of(before.values()[j]@)
                    }),
            decreases n - i,
        {
            let kept = without(self.tagged.value_at(i), tag);
            let ghost prior = self.tagged.values();
            self.tagged.set_at(i, kept);
            proof {
                assert forall|j: int| 0 <= j < n implies keys_of(
                    (#[trigger] self.tagged.values()[j])@,
                ) == (if j < i + 1 {
                    keys_of(before.values()[j]@).filter(other_than(tag@))
                } else {
                    keys_of(before.values()[j]@)
                }) by {
                    if j != i {
                        assert(self.tagged.values()[j] == prior[j]);
                    }
                }
            }
            i += 1;
        }
        proof {
            assert forall|item: Key| self.has_item(item) == old(self).has_item(item) by {
                if self.tagged@.dom().contains(item) {
                    self.tagged.lemma_index(item);
                    before.lemma_entry(self.tagged.index_of(item));
                }
                if before@.dom().contains(item) {
                    before.lemma_index(item);
                    self.tagged.lemma_entry(before.index_of(item));
                }
            }
            assert forall|item: Key| old(self).has_item(item) implies self.names(item)
                == old(self).names(item).filter(other_than(tag@)) by {
                before.lemma_index(item);
                let j = before.index_of(item);
                self.tagged.lemma_entry(j);
                assert(keys_of(self.tagged.values()[j]@) == keys_of(before.values()[j]@).filter(
                    other_than(tag@),
                ));
            }
        }
    }

    /// Removes the entry of `item`.
    pub fn remove_item(&mut self, item: &String)
        requires
            old(self).wf(),
        ensures
            final(self).wf(),
            final(self).scores() == old(self).scores(),
            !final(self).has_item(item@),
            forall|other: Key|
                other != item@ ==> final(self).has_item(other) == old(self).has_item(other)
                    && final(self).names(other) == old(self).names(other),
    {
        self.tagged.remove(item);
    }

    /// The tags as a list for the screen, best first: in descending order
    /// of score, tags with the same score in descending order of name.
    pub fn to_items<const N: usize>(&self) -> (items: Items<Tag, N>)
        requires
            self.wf(),
        ensures
            items.current() == 0,
            descending_pairs(scored_tags(items@)),
            scored_tags(items@).to_multiset() == self.tag_pairs().to_multiset(),
    {
        let n = self.tags.len();
        let mut pairs: Vec<(i64, String)> = Vec::new();
        let mut i: usize = 0;
        while i < n
            invariant
                i <= n,
                n == self.tags.names().len(),
                n == self.tags.values().len(),
                pairs@.len() == i,
                forall|j: int|
                    0 <= j < i ==> (#[trigger] pairs@[j]).0 == self.tags.values()[j] && pairs@[j].1@
                        == self.tags.names()[j],
            decreases n - i,
        {
            pairs.push((*self.tags.value_at(i), self.tags.name_at(i).clone()));
            i += 1;
        }
        assert(scored_of(pairs@) =~= self.tag_pairs());
        sort_scored(&mut pairs);
        let tags = best_first(&pairs);
        proof {
            scored_of(pairs@).lemma_reverse_to_multiset();
        }
        Items::new(tags)
    }
}

} // verus!
