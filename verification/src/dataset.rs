//! The description of a data set: which tags each item has, as a set of
//! bits, and how the items of each kind are split for training.

use crate::ordpaths::{list_has, listed};
use rand::seq::SliceRandom;
use std::collections::HashMap;
use vstd::prelude::*;

verus! {

/// A set of up to 64 tags, one bit for each.
#[derive(Debug, Clone, Copy, Hash, PartialEq, Eq, Structural)]
pub struct BitFlags {
    inner: u64,
}

/// Whether bit `i` of `word` is set.
pub open spec fn bit_of(word: u64, i: u64) -> bool {
    word & (1u64 << i) != 0
}

impl View for BitFlags {
    type V = u64;

    /// The flags as one word, bit `i` for tag `i`.
    closed spec fn view(&self) -> u64 {
        self.inner
    }
}

impl BitFlags {
    /// Whether tag `i` is enabled.
    pub open spec fn is_set(&self, i: u64) -> bool {
        bit_of(self@, i)
    }

    /// The flags that the word `value` stands for.
    pub closed spec fn of_bits(value: u64) -> BitFlags {
        BitFlags { inner: value }
    }

    /// The flags as one word.
    pub fn bits(&self) -> (w: u64)
        ensures
            w == self@,
    {
        self.inner
    }

    /// The flags that one word stands for.
    pub fn from_bits(value: u64) -> (f: BitFlags)
        ensures
            f@ == value,
            f == BitFlags::of_bits(value),
    {
        BitFlags { inner: value }
    }

    /// Enables tag `i` and leaves the others as they are.
    pub fn enable(&mut self, i: u64)
        requires
            i < 63,
        ensures
            final(self)@ == old(self)@ | (1u64 << i),
            final(self).is_set(i),
            forall|j: u64| j < 64 && j != i ==> final(self).is_set(j) == old(self).is_set(j),
    {
        let ghost before = self.inner;
        self.inner = self.inner | (1u64 << i);
        proof {
            let after = self.inner;
            assert(after & (1u64 << i) != 0) by (bit_vector)
                requires
                    after == before | (1u64 << i),
                    i < 63,
            ;
            assert forall|j: u64| j < 64 && j != i implies bit_of(after, j) == bit_of(
                before,
                j,
            ) by {
                assert((after & (1u64 << j) != 0) == (before & (1u64 << j) != 0)) by (bit_vector)
                    requires
                        after == before | (1u64 << i),
                        i < 63,
                        j < 64,
                        j != i,
                ;
            }
        }
    }

    /// The 64 flags as numbers, 1 for an enabled tag and 0 for the others.
    pub fn to_vec(&self) -> (res: Vec<i8>)
        ensures
            res@.len() == 64,
            forall|i: int|
                0 <= i < 64 ==> (#[trigger] res@[i]) == (if self.is_set(i as u64) {
                    1i8
                } else {
                    0i8
                }),
    {
        let mut res: Vec<i8> = Vec::new();
        let mut i: u64 = 0;
        while i < 64
            invariant
                i <= 64,
                res@.len() == i,
                forall|j: int|
                    0 <= j < i ==> (#[trigger] res@[j]) == (if self.is_set(j as u64) {
                        1i8
                    } else {
                        0i8
                    }),
            decreases 64 - i,
        {
            if self.inner & (1u64 << i) != 0 {
                res.push(1);
            } else {
                res.push(0);
            }
            i += 1;
        }
        res
    }
}

impl Default for BitFlags {
    /// No tag enabled.
    fn default() -> (f: BitFlags)
        ensures
            f@ == 0,
            forall|j: u64| j < 64 ==> !f.is_set(j),
    {
        assert forall|j: u64| j < 64 implies !bit_of(0u64, j) by {
            assert(0u64 & (1u64 << j) == 0) by (bit_vector);
        }
        BitFlags { inner: 0 }
    }
}

impl From<u64> for BitFlags {
    fn from(value: u64) -> (f: BitFlags) {
        BitFlags { inner: value }
    }
}

impl vstd::std_specs::convert::FromSpecImpl<u64> for BitFlags {
    open spec fn obeys_from_spec() -> bool {
        true
    }

    open spec fn from_spec(value: u64) -> BitFlags {
        BitFlags::of_bits(value)
    }
}

/// The flags of an item: bit `i` says whether the item has the tag
/// `all_tags[i]`.
pub fn encode(all_tags: &Vec<String>, tags: &Vec<String>) -> (flags: BitFlags)
    requires
        all_tags@.len() <= 63,
    ensures
        forall|i: u64|
            i < 64 ==> flags.is_set(i) == (i < all_tags@.len() && listed(
                tags@,
                all_tags@[i as int]@,
            )),
{
    let mut flags = BitFlags::default();
    let mut i: usize = 0;
    while i < all_tags.len()
        invariant
            i <= all_tags@.len() <= 63,
            forall|j: u64|
                j < 64 ==> flags.is_set(j) == (j < i && listed(tags@, all_tags@[j as int]@)),
        decreases all_tags@.len() - i,
    {
        if list_has(tags, &all_tags[i]) {
            flags.enable(i as u64);
        }
        i += 1;
    }
    flags
}

/// Where a list of `len` items is cut: the first part, for validation, has
/// `valid` shares of `train + valid`, rounded down.
pub fn split_point(len: usize, train: u32, valid: u32) -> (split: usize)
    requires
        train + valid > 0,
    ensures
        split == (valid * len) / (train + valid),
        split <= len,
{
    let total: u128 = train as u128 + valid as u128;
    assert(valid as int * len as int <= 0xffff_ffff * 0xffff_ffff_ffff_ffff) by (nonlinear_arith)
        requires
            0 <= valid <= 0xffff_ffff,
            0 <= len <= 0xffff_ffff_ffff_ffff,
    ;
    let product: u128 = valid as u128 * len as u128;
    let split: u128 = product / total;
    proof {
        assert(valid as int * len as int <= (train as int + valid as int) * len as int)
            by (nonlinear_arith)
            requires
                train >= 0,
                valid >= 0,
                len >= 0,
        ;
        vstd::arithmetic::div_mod::lemma_div_is_ordered(
            product as int,
            total as int * len as int,
            total as int,
        );
        vstd::arithmetic::div_mod::lemma_div_multiples_vanish(len as int, total as int);
        assert(total as int * len as int == len as int * total as int) by (nonlinear_arith);
    }
    split as usize
}

/// `rand::seq::SliceRandom::shuffle` on a list of paths, with the
/// thread-local generator. The crate shuffles in place by swapping elements,
/// so the list holds the same paths afterwards; their order is left open.
#[verifier::external_body]
fn shuffle_paths(paths: &mut Vec<String>)
    ensures
        final(paths)@.to_multiset() == old(paths)@.to_multiset(),
{
    paths.shuffle(&mut rand::thread_rng());
}

/// Shuffles the items of one kind and splits them: `paths` keeps the part
/// for validation, the part for training is returned.
pub fn divide_group(paths: &mut Vec<String>, train: u32, valid: u32) -> (rest: Vec<String>)
    requires
        train + valid > 0,
    ensures
        final(paths)@.len() == (valid * old(paths)@.len()) / (train + valid),
        final(paths)@.len() + rest@.len() == old(paths)@.len(),
        (final(paths)@ + rest@).to_multiset() == old(paths)@.to_multiset(),
{
    shuffle_paths(paths);
    let split = split_point(paths.len(), train, valid);
    proof {
        old(paths)@.to_multiset_ensures();
        paths@.to_multiset_ensures();
    }
    let ghost shuffled = paths@;
    let rest = paths.split_off(split);
    assert(paths@ + rest@ =~= shuffled);
    rest
}

/// The sum of the first `n` counts of a list of kinds with their counts.
pub open spec fn total_of(kinds: Seq<(u64, usize)>, n: int) -> int
    decreases n,
{
    if n <= 0 {
        0
    } else {
        total_of(kinds, n - 1) + kinds[n - 1].1
    }
}

/// The running totals of a list of kinds with the number of samples to draw
/// of each: for each kind the number of samples up to and with that kind.
/// `None` where the total is beyond `usize`.
pub fn running_totals(kinds: &Vec<(u64, usize)>) -> (r: Option<Vec<(usize, u64)>>)
    ensures
        match r {
            Some(totals) => {
                &&& totals@.len() == kinds@.len()
                &&& forall|i: int|
                    0 <= i < totals@.len() ==> (#[trigger] totals@[i]).0 == total_of(kinds@, i + 1)
                        && totals@[i].1 == kinds@[i].0
            },
            None => total_of(kinds@, kinds@.len() as int) > usize::MAX,
        },
{
    let mut totals: Vec<(usize, u64)> = Vec::new();
    let mut sum: usize = 0;
    let mut i: usize = 0;
    while i < kinds.len()
        invariant
            i <= kinds@.len(),
            totals@.len() == i,
            sum == total_of(kinds@, i as int),
            forall|j: int|
                0 <= j < i ==> (#[trigger] totals@[j]).0 == total_of(kinds@, j + 1) && totals@[j].1
                    == kinds@[j].0,
        decreases kinds@.len() - i,
    {
        match sum.checked_add(kinds[i].1) {
            Some(next) => {
                sum = next;
            },
            None => {
                proof {
                    lemma_total_grows(kinds@, i as int + 1, kinds@.len() as int);
                }
                return None;
            },
        }
        totals.push((sum, kinds[i].0));
        i += 1;
    }
    Some(totals)
}

/// The totals of longer beginnings of a list are not smaller.
proof fn lemma_total_grows(kinds: Seq<(u64, usize)>, n: int, m: int)
    requires
        0 <= n <= m,
    ensures
        total_of(kinds, n) <= total_of(kinds, m),
    decreases m - n,
{
    if n < m {
        lemma_total_grows(kinds, n, m - 1);
    }
}

/// The kind that sample `index` is drawn from: the first kind whose running
/// total is above `index`; `None` where `index` is beyond all samples.
pub fn locate(totals: &Vec<(usize, u64)>, index: usize) -> (r: Option<u64>)
    ensures
        match r {
            Some(kind) => exists|i: int|
                0 <= i < totals@.len() && index < (#[trigger] totals@[i]).0 && totals@[i].1 == kind
                    && forall|j: int| 0 <= j < i ==> (#[trigger] totals@[j]).0 <= index,
            None => forall|j: int| 0 <= j < totals@.len() ==> (#[trigger] totals@[j]).0 <= index,
        },
{
    let mut i: usize = 0;
    while i < totals.len()
        invariant
            i <= totals@.len(),
            forall|j: int| 0 <= j < i ==> (#[trigger] totals@[j]).0 <= index,
        decreases totals@.len() - i,
    {
        if index < totals[i].0 {
            return Some(totals[i].1);
        }
        i += 1;
    }
    None
}

/// The description of a data set for training or validation.
#[derive(Debug)]
pub struct DataSetDesc {
    /// The number of tags.
    pub num_classes: usize,
    /// How often the items of each kind are repeated.
    pub up_sample: HashMap<u64, usize>,
    /// The items of each kind, by the word of their flags.
    pub binary_encodings: HashMap<u64, Vec<String>>,
}

impl DataSetDesc {
    /// An empty description for `num_classes` tags.
    pub fn new(num_classes: usize) -> (d: DataSetDesc)
        ensures
            d.num_classes == num_classes,
            d.up_sample@ == Map::<u64, usize>::empty(),
            d.binary_encodings@ == Map::<u64, Vec<String>>::empty(),
    {
        DataSetDesc { num_classes, up_sample: HashMap::new(), binary_encodings: HashMap::new() }
    }

    /// Adds `path` to the items with the given flags.
    pub fn add(&mut self, flags: BitFlags, path: String)
        ensures
            final(self).num_classes == old(self).num_classes,
            final(self).up_sample == old(self).up_sample,
            final(self).binary_encodings@.dom() == old(self).binary_encodings@.dom().insert(
                flags@,
            ),
            final(self).binary_encodings@[flags@]@
                == (if old(self).binary_encodings@.dom().contains(flags@) {
                old(self).binary_encodings@[flags@]@
            } else {
                Seq::<String>::empty()
            }).push(path),
            forall|k: u64|
                k != flags@ && old(self).binary_encodings@.dom().contains(k)
                    ==> final(self).binary_encodings@[k] == old(self).binary_encodings@[k],
    {
        broadcast use vstd::std_specs::hash::group_hash_axioms;

        let key = flags.bits();
        let mut list = match self.binary_encodings.remove(&key) {
            Some(list) => list,
            None => Vec::new(),
        };
        list.push(path);
        self.binary_encodings.insert(key, list);
    }
}

} // verus!
