//! A small form: a few named fields of text and a cursor on one of them.

use vstd::prelude::*;

verus! {

/// `String::push` of std appends one character.
pub assume_specification[ String::push ](s: &mut String, ch: char)
    ensures
        final(s)@ == old(s)@.push(ch),
;

/// `String::pop` of std removes the last character and returns it, or
/// returns `None` for an empty string.
pub assume_specification[ String::pop ](s: &mut String) -> (r: Option<char>)
    ensures
        match r {
            Some(ch) => old(s)@.len() > 0 && ch == old(s)@.last() && final(s)@ == old(
                s,
            )@.drop_last(),
            None => old(s)@.len() == 0 && final(s)@ == old(s)@,
        },
;

/// `String::clear` of std removes all characters.
pub assume_specification[ String::clear ](s: &mut String)
    ensures
        final(s)@ == Seq::<char>::empty(),
;

/// The texts of a list of strings.
pub open spec fn texts(s: Seq<String>) -> Seq<Seq<char>> {
    Seq::new(s.len(), |i: int| s[i]@)
}

/// `N` fields of text with their names, and the cursor.
#[derive(Debug)]
pub struct InputBuffer<const N: usize> {
    cursor: usize,
    keys: [String; N],
    values: Vec<String>,
}

impl<const N: usize> InputBuffer<N> {
    /// The field that the cursor is on.
    pub closed spec fn cursor(&self) -> nat {
        self.cursor as nat
    }

    /// The names of the fields.
    pub closed spec fn keys(&self) -> Seq<Seq<char>> {
        texts(self.keys@)
    }

    /// The texts of the fields.
    pub closed spec fn values(&self) -> Seq<Seq<char>> {
        texts(self.values@)
    }

    /// The invariant: there are `N` texts, and the cursor is on a field or,
    /// where there is no field, at zero.
    pub open spec fn wf(&self) -> bool {
        &&& self.values().len() == N
        &&& self.keys().len() == N
        &&& (self.cursor() < N || (N == 0 && self.cursor() == 0))
    }

    /// A form with the given names, all fields empty, the cursor on the first.
    pub fn new(keys: [String; N]) -> (b: InputBuffer<N>)
        ensures
            b.wf(),
            b.cursor() == 0,
            b.keys() == texts(keys@),
            forall|i: int| 0 <= i < N ==> (#[trigger] b.values()[i]).len() == 0,
    {
        let mut values: Vec<String> = Vec::new();
        let mut i: usize = 0;
        while i < N
            invariant
                i <= N,
                values@.len() == i,
                forall|j: int| 0 <= j < i ==> (#[trigger] values@[j])@.len() == 0,
            decreases N - i,
        {
            values.push(String::new());
            i += 1;
        }
        InputBuffer { cursor: 0, keys, values }
    }

    /// The field that the cursor is on.
    pub fn position(&self) -> (c: usize)
        ensures
            c == self.cursor(),
    {
        self.cursor
    }

    /// The name of field `i`.
    pub fn key(&self, i: usize) -> (k: &String)
        requires
            self.wf(),
            i < N,
        ensures
            k@ == self.keys()[i as int],
    {
        &self.keys[i]
    }

    /// The text of field `i`.
    pub fn value(&self, i: usize) -> (v: &String)
        requires
            self.wf(),
            i < N,
        ensures
            v@ == self.values()[i as int],
    {
        &self.values[i]
    }

    /// Puts the cursor on field `i`.
    pub fn set_cursor(&mut self, i: usize)
        requires
            old(self).wf(),
            i < N,
        ensures
            final(self).wf(),
            final(self).cursor() == i,
            final(self).keys() == old(self).keys(),
            final(self).values() == old(self).values(),
    {
        self.cursor = i;
    }

    /// Appends `c` to the field under the cursor.
    pub fn push(&mut self, c: char)
        requires
            old(self).wf(),
            N > 0,
        ensures
            final(self).wf(),
            final(self).cursor() == old(self).cursor(),
            final(self).keys() == old(self).keys(),
            final(self).values() == old(self).values().update(
                old(self).cursor() as int,
                old(self).values()[old(self).cursor() as int].push(c),
            ),
    {
        let ghost before = self.values();
        self.values[self.cursor].push(c);
        assert(self.values() =~= before.update(
            self.cursor as int,
            before[self.cursor as int].push(c),
        ));
    }

    /// Removes the last character of the field under the cursor, if it has one.
    pub fn pop(&mut self)
        requires
            old(self).wf(),
            N > 0,
        ensures
            final(self).wf(),
            final(self).cursor() == old(self).cursor(),
            final(self).keys() == old(self).keys(),
            final(self).values() == old(self).values().update(
                old(self).cursor() as int,
                if old(self).values()[old(self).cursor() as int].len() > 0 {
                    old(self).values()[old(self).cursor() as int].drop_last()
                } else {
                    old(self).values()[old(self).cursor() as int]
                },
            ),
    {
        let ghost before = self.values();
        self.values[self.cursor].pop();
        assert(self.values() =~= before.update(
            self.cursor as int,
            if before[self.cursor as int].len() > 0 {
                before[self.cursor as int].drop_last()
            } else {
                before[self.cursor as int]
            },
        ));
    }

    /// Empties the field under the cursor.
    pub fn clear(&mut self)
        requires
            old(self).wf(),
            N > 0,
        ensures
            final(self).wf(),
            final(self).cursor() == old(self).cursor(),
            final(self).keys() == old(self).keys(),
            final(self).values() == old(self).values().update(
                old(self).cursor() as int,
                Seq::<char>::empty(),
            ),
    {
        let ghost before = self.values();
        self.values[self.cursor].clear();
        assert(self.values() =~= before.update(self.cursor as int, Seq::<char>::empty()));
    }

    /// Empties all fields and puts the cursor on the first.
    pub fn clear_all(&mut self)
        requires
            old(self).wf(),
        ensures
            final(self).wf(),
            final(self).cursor() == 0,
            final(self).keys() == old(self).keys(),
            forall|i: int| 0 <= i < N ==> (#[trigger] final(self).values()[i]).len() == 0,
    {
        let mut i: usize = 0;
        while i < N
            invariant
                i <= N,
                self.values@.len() == N,
                self.keys == old(self).keys,
                self.cursor == old(self).cursor,
                forall|j: int| 0 <= j < i ==> (#[trigger] self.values@[j])@.len() == 0,
            decreases N - i,
        {
            self.values[i].clear();
            i += 1;
        }
        self.cursor = 0;
    }

    /// Puts the cursor on the next field, and from the last on the first.
    pub fn next(&mut self)
        requires
            old(self).wf(),
            N > 0,
        ensures
            final(self).wf(),
            final(self).cursor() == (old(self).cursor() + 1) % (N as nat),
            final(self).keys() == old(self).keys(),
            final(self).values() == old(self).values(),
    {
        if self.cursor + 1 == N {
            self.cursor = 0;
        } else {
            assert((self.cursor + 1) % (N as int) == self.cursor + 1) by (nonlinear_arith)
                requires
                    0 <= self.cursor + 1 < N,
            ;
            self.cursor = self.cursor + 1;
        }
    }

    /// Puts the cursor on the field before, and from the first on the last.
    pub fn prev(&mut self)
        requires
            old(self).wf(),
            N > 0,
        ensures
            final(self).wf(),
            final(self).cursor() == (old(self).cursor() + N - 1) % (N as int),
            final(self).keys() == old(self).keys(),
            final(self).values() == old(self).values(),
    {
        if self.cursor == 0 {
            assert((0 + N - 1) % (N as int) == N - 1) by (nonlinear_arith)
                requires
                    N > 0,
            ;
            self.cursor = N - 1;
        } else {
            assert((self.cursor + N - 1) % (N as int) == self.cursor - 1) by {
                vstd::arithmetic::div_mod::lemma_mod_add_multiples_vanish(
                    self.cursor - 1,
                    N as int,
                );
                vstd::arithmetic::div_mod::lemma_small_mod((self.cursor - 1) as nat, N as nat);
            }
            self.cursor = self.cursor - 1;
        }
    }
}

} // verus!
