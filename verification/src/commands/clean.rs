//! `clean`: remove every container and volume.
use crate::text::{chars_of, split_words, string_of, words_of};
use vstd::prelude::*;

verus! {

/// `clean` takes no arguments.
#[derive(Debug)]
pub struct CleanArgs {}

/// The names that a listing holds: its words.  A listing of white space
/// alone names nothing, and then there is nothing to remove.
pub fn listed_names(listing: &str) -> (names: Vec<String>)
    ensures
        names.deep_view() == words_of(listing@),
{
    let chars = chars_of(listing);
    let words = split_words(chars.as_slice());
    let mut names: Vec<String> = Vec::new();
    let mut i: usize = 0;
    while i < words.len()
        invariant
            0 <= i <= words@.len(),
            names@.len() == i,
            forall|k: int| 0 <= k < i ==> (#[trigger] names@[k])@ == words@[k]@,
        decreases words@.len() - i,
    {
        names.push(string_of(words[i].as_slice()));
        i += 1;
    }
    assert(names.deep_view() =~= crate::text::line_views(words@));
    names
}

} // verus!
