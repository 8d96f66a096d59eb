//! Finding the items of a run: which of the files are images, and which
//! group stands for each.

use crate::matrix::Matrix;
use crate::ordpaths::{keys_of, Key, OrdPaths};
use vstd::prelude::*;

verus! {

/// The top-level media type that `mime_guess` guesses first for a path, by
/// the path's extension; `None` where it guesses nothing.
pub uninterp spec fn guessed_type(path: Seq<char>) -> Option<Seq<char>>;

/// `mime_guess::MimeGuess::from_path` and `first`, with `type_` of the
/// media type found. The crate takes the extension of the path, as the
/// platform reads paths, looks it up in a table that is compiled into it,
/// and touches no file, so the guess depends on the path alone.
#[verifier::external_body]
fn guess_type(path: &String) -> (r: Option<String>)
    ensures
        match r {
            Some(t) => guessed_type(path@) == Some(t@),
            None => guessed_type(path@) is None,
        },
{
    mime_guess::MimeGuess::from_path(path).first().map(|m| m.type_().as_str().to_string())
}

/// Whether a path is taken for an image.
pub open spec fn is_image(path: Key) -> bool {
    guessed_type(path) == Some("image"@)
}

/// The test for images, as a function.
pub open spec fn image_test() -> spec_fn(Key) -> bool {
    |path: Key| is_image(path)
}

/// Whether a guessed media type is that of an image.
pub fn is_image_type(guess: &Option<String>) -> (b: bool)
    ensures
        b == match guess {
            Some(t) => t@ == "image"@,
            None => false,
        },
{
    match guess {
        Some(t) => {
            let image = "image".to_owned();
            *t == image
        },
        None => false,
    }
}

/// The paths that are taken for images, in the given order.
pub fn images_only(paths: Vec<String>) -> (out: Vec<String>)
    ensures
        keys_of(out@) == keys_of(paths@).filter(image_test()),
{
    let ghost all = keys_of(paths@);
    let mut out: Vec<String> = Vec::new();
    let mut i: usize = 0;
    proof {
        reveal(Seq::filter);
        assert(all.take(0).filter(image_test()) =~= Seq::<Key>::empty());
        assert(keys_of(out@) =~= Seq::<Key>::empty());
    }
    while i < paths.len()
        invariant
            i <= paths@.len(),
            all == keys_of(paths@),
            keys_of(out@) == all.take(i as int).filter(image_test()),
        decreases paths@.len() - i,
    {
        let ghost prev = keys_of(out@);
        let guess = guess_type(&paths[i]);
        proof {
            assert(all.take(i as int + 1).drop_last() =~= all.take(i as int));
            assert(all.take(i as int + 1).last() == paths@[i as int]@);
            assert(all.take(i as int + 1).filter(image_test()) == (if is_image(paths@[i as int]@) {
                prev.push(paths@[i as int]@)
            } else {
                prev
            })) by {
                reveal(Seq::filter);
            }
        }
        if is_image_type(&guess) {
            out.push(paths[i].clone());
            assert(keys_of(out@) =~= prev.push(paths@[i as int]@));
        }
        i += 1;
    }
    assert(all.take(i as int) =~= all);
    out
}

/// The group that stands for the item `path`: the one that the cache holds
/// for it, or the item alone.
pub open spec fn group_for(groups: Map<Key, Seq<Key>>, path: Key) -> Seq<Key> {
    if groups.dom().contains(path) {
        groups[path]
    } else {
        seq![path]
    }
}

/// A group for each of `images`: the one that the cache knows the item by,
/// so that items that were merged once stay together, or a new group of the
/// item alone.
pub fn groups_for(images: &Vec<String>, matrix: &Matrix) -> (out: Vec<OrdPaths>)
    requires
        matrix.wf(),
    ensures
        out@.len() == images@.len(),
        forall|i: int|
            0 <= i < out@.len() ==> (#[trigger] out@[i])@ == group_for(
                matrix.groups(),
                images@[i]@,
            ) && out@[i].wf() && out@[i].key() == images@[i]@,
{
    let mut out: Vec<OrdPaths> = Vec::new();
    let mut i: usize = 0;
    while i < images.len()
        invariant
            matrix.wf(),
            i <= images@.len(),
            out@.len() == i,
            forall|j: int|
                0 <= j < i ==> (#[trigger] out@[j])@ == group_for(matrix.groups(), images@[j]@)
                    && out@[j].wf() && out@[j].key() == images@[j]@,
        decreases images@.len() - i,
    {
        let group = match matrix.get_paths(&images[i]) {
            Some(group) => group,
            None => OrdPaths::singleton(images[i].clone()),
        };
        out.push(group);
        i += 1;
    }
    out
}

} // verus!
