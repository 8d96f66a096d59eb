//! Groups of items that were judged equal.
//!
//! A group is an ordered list of item paths. Its first member is the
//! canonical key: the cache, equality and lookups read nothing else, so a
//! group keeps its identity while members are appended to it.

use rand::seq::SliceRandom;
use vstd::prelude::*;

verus! {

/// The key of an item in contracts: the characters of its path.
pub type Key = Seq<char>;

/// The keys of a list of paths, in order.
pub open spec fn keys_of(paths: Seq<String>) -> Seq<Key> {
    Seq::new(paths.len(), |i: int| paths[i]@)
}

/// Whether the key `x` occurs in the list `s`.
pub open spec fn listed(s: Seq<String>, x: Key) -> bool {
    exists|i: int| 0 <= i < s.len() && (#[trigger] s[i])@ == x
}

/// Whether `s` lists `x`.
pub fn list_has(s: &Vec<String>, x: &String) -> (b: bool)
    ensures
        b == listed(s@, x@),
        b == keys_of(s@).contains(x@),
{
    let mut i: usize = 0;
    while i < s.len()
        invariant
            i <= s@.len(),
            forall|j: int| 0 <= j < i ==> (#[trigger] s@[j])@ != x@,
            forall|j: int| 0 <= j < i ==> keys_of(s@)[j] != x@,
        decreases s@.len() - i,
    {
        if s[i] == *x {
            assert(keys_of(s@)[i as int] == x@);
            return true;
        }
        i += 1;
    }
    false
}

/// An ordered group of item paths with equal score.
#[derive(Debug)]
pub struct OrdPaths {
    paths: Vec<String>,
}

impl View for OrdPaths {
    type V = Seq<Key>;

    /// The members of the group, first the canonical key.
    closed spec fn view(&self) -> Seq<Key> {
        keys_of(self.paths@)
    }
}

/// `rand::seq::SliceRandom::choose` on the members of a group, with the
/// thread-local generator. The crate documents that it returns `None` for an
/// empty slice and otherwise a reference to one of the slice's elements; which
/// one is left open here.
#[verifier::external_body]
fn choose_path(paths: &Vec<String>) -> (r: Option<&String>)
    ensures
        match r {
            Some(p) => paths@.contains(*p),
            None => paths@.len() == 0,
        },
{
    paths.choose(&mut rand::thread_rng())
}

impl OrdPaths {
    /// A group is well formed when it has a canonical key.
    pub open spec fn wf(&self) -> bool {
        self@.len() > 0
    }

    /// The canonical key: the first member.
    pub open spec fn key(&self) -> Key
        recommends
            self.wf(),
    {
        self@[0]
    }

    /// A group of the given paths, in the given order.
    pub fn new(paths: Vec<String>) -> (g: OrdPaths)
        ensures
            g@ == keys_of(paths@),
    {
        OrdPaths { paths }
    }

    /// A group of one item.
    pub fn singleton(path: String) -> (g: OrdPaths)
        ensures
            g@ == seq![path@],
            g.wf(),
    {
        let mut paths: Vec<String> = Vec::new();
        paths.push(path);
        assert(keys_of(paths@) =~= seq![path@]);
        OrdPaths { paths }
    }

    /// The number of members.
    pub fn len(&self) -> (n: usize)
        ensures
            n == self@.len(),
    {
        self.paths.len()
    }

    /// Whether the group has no member at all.
    pub fn is_empty(&self) -> (b: bool)
        ensures
            b == (self@.len() == 0),
    {
        self.paths.len() == 0
    }

    /// The member at `index`.
    pub fn index(&self, index: usize) -> (p: &String)
        requires
            index < self@.len(),
        ensures
            p@ == self@[index as int],
    {
        &self.paths[index]
    }

    /// The canonical key of the group.
    pub fn canonical_key(&self) -> (p: &String)
        requires
            self.wf(),
        ensures
            p@ == self.key(),
    {
        &self.paths[0]
    }

    /// The members, first the canonical key.
    pub fn members(&self) -> (m: &Vec<String>)
        ensures
            keys_of(m@) == self@,
    {
        &self.paths
    }

    /// Whether `path` is a member.
    pub fn contains(&self, path: &String) -> (b: bool)
        ensures
            b == self@.contains(path@),
    {
        list_has(&self.paths, path)
    }

    /// One member picked at random, for display; `None` for an empty group.
    pub fn random_one(&self) -> (r: Option<&String>)
        ensures
            self@.len() == 0 ==> r is None,
            self@.len() > 0 ==> r is Some && self@.contains(r->0@),
    {
        let r = choose_path(&self.paths);
        proof {
            if let Some(p) = r {
                let i = choose|i: int| 0 <= i < self.paths@.len() && self.paths@[i] == *p;
                assert(self@[i] == p@);
            }
        }
        r
    }

    /// Appends all members of `other`, which keeps only its canonical key, so
    /// that whoever still holds `other` can look it up as before.
    pub fn extend(&mut self, other: &mut OrdPaths)
        requires
            old(other).wf(),
        ensures
            final(self)@ == old(self)@ + old(other)@,
            final(other)@ == seq![old(other).key()],
            final(other).key() == old(other).key(),
            final(other).wf(),
            forall|x: Key|
                old(self)@.contains(x) || old(other)@.contains(x) ==> final(self)@.contains(x),
    {
        let key = other.paths[0].clone();
        let ghost mine = self.paths@;
        let ghost theirs = other.paths@;
        self.paths.append(&mut other.paths);
        other.paths.push(key);
        assert(keys_of(self.paths@) =~= keys_of(mine) + keys_of(theirs));
        assert(keys_of(other.paths@) =~= seq![theirs[0]@]);
        assert forall|x: Key| old(self)@.contains(x) || old(other)@.contains(x)
            implies self@.contains(
            x,
        ) by {
            if old(self)@.contains(x) {
                let i = choose|i: int| 0 <= i < old(self)@.len() && old(self)@[i] == x;
                assert(self@[i] == x);
            } else {
                let i = choose|i: int| 0 <= i < old(other)@.len() && old(other)@[i] == x;
                assert(self@[old(self)@.len() + i] == x);
            }
        }
    }
}

impl Clone for OrdPaths {
    /// A group with the same members in the same order.
    fn clone(&self) -> (g: OrdPaths)
        ensures
            g@ == self@,
    {
        let paths = self.paths.clone();
        assert(keys_of(paths@) =~= keys_of(self.paths@));
        OrdPaths { paths }
    }
}

impl Default for OrdPaths {
    /// The empty group, a placeholder that equals every group.
    fn default() -> (g: OrdPaths)
        ensures
            g@.len() == 0,
    {
        OrdPaths { paths: Vec::new() }
    }
}

impl PartialEq for OrdPaths {
    /// Two groups are equal when their canonical keys are, or when one is empty.
    fn eq(&self, other: &OrdPaths) -> (b: bool) {
        if self.paths.len() == 0 || other.paths.len() == 0 {
            return true;
        }
        self.paths[0] == other.paths[0]
    }
}

impl vstd::std_specs::cmp::PartialEqSpecImpl for OrdPaths {
    open spec fn obeys_eq_spec() -> bool {
        true
    }

    open spec fn eq_spec(&self, other: &OrdPaths) -> bool {
        self@.len() == 0 || other@.len() == 0 || self@[0] == other@[0]
    }
}

} // verus!
