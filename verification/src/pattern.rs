//! Regular expressions, as the `regex` crate matches them.
//!
//! What an expression matches is not restated here.  It has a name,
//! [`regex_captures`] for the first match and [`regex_captures_iter`] for all
//! of them, and the functions of this module hand back what the crate found
//! under that name.  Everything in this module is believed, not proved.
use regex::Regex;
use vstd::prelude::*;

verus! {

/// `regex::Regex`, a compiled expression; nothing inside it is seen.
#[verifier::external_type_specification]
#[verifier::external_body]
pub struct ExRegex(Regex);

/// `regex::Error`, why a pattern was not built; nothing inside it is seen.
#[verifier::external_type_specification]
#[verifier::external_body]
pub struct ExRegexError(regex::Error);

/// The pattern that a compiled expression reports as its source
/// (`Regex::as_str`): the string that `Regex::new` was given.
pub uninterp spec fn regex_source(re: Regex) -> Seq<char>;

/// Was the expression built as `Regex::new` builds one: with the options of
/// the crate's default builder, none of them changed?  An expression that a
/// builder made case-insensitive, say, has the same source and matches
/// otherwise.
pub uninterp spec fn regex_plain(re: Regex) -> bool;

/// Does `Regex::new` build `pattern` where a pointer has `word_bits` bits?
/// It does where the pattern is well formed and its compiled program keeps
/// within the crate's default size limit.  The limit counts bytes of
/// structures whose size goes by the width of a pointer, so that width is an
/// argument here.
pub uninterp spec fn regex_builds(pattern: Seq<char>, word_bits: nat) -> bool;

/// The first match of `pattern` in `text`, as `Regex::captures` finds it
/// with an expression that `Regex::new` built from `pattern`: `None` where
/// nothing matches, else the text of each capture group by its index, the
/// whole match being group 0 and a group that took no part in the match
/// being `None`.
pub uninterp spec fn regex_captures(pattern: Seq<char>, text: Seq<char>) -> Option<
    Seq<Option<Seq<char>>>,
>;

/// The successive matches of `pattern` in `text`, none overlapping another,
/// as `Regex::captures_iter` yields them with an expression that
/// `Regex::new` built from `pattern`, each with its groups as in
/// [`regex_captures`].
pub uninterp spec fn regex_captures_iter(pattern: Seq<char>, text: Seq<char>) -> Seq<
    Seq<Option<Seq<char>>>,
>;

/// Calls `Regex::new`.  Claims that an expression is built exactly where
/// [`regex_builds`] says so for this machine's pointers, and that it then
/// reports `pattern` as its source and has the default options.
#[verifier::external_body]
pub(crate) fn compile(pattern: &str) -> (built: Result<Regex, regex::Error>)
    ensures
        built is Ok <==> regex_builds(pattern@, usize::BITS as nat),
        built matches Ok(re) ==> regex_source(re) == pattern@ && regex_plain(re),
{
    Regex::new(pattern)
}

/// Calls `Regex::captures` and copies the text of each group out of the
/// match.  Claims, of an expression with the default options, that this is
/// the first match of its source pattern in `text`.
#[verifier::external_body]
pub(crate) fn captures(re: &Regex, text: &str) -> (found: Option<Vec<Option<String>>>)
    requires
        regex_plain(*re),
    ensures
        found.deep_view() == regex_captures(regex_source(*re), text@),
{
    re.captures(text).map(|groups| groups.iter().map(|m| m.map(|m| m.as_str().to_string())).collect())
}

/// Calls `Regex::captures_iter` and copies the text of each group out of
/// each match.  Claims, of an expression with the default options, that
/// these are the successive matches of its source pattern in `text`.
#[verifier::external_body]
pub(crate) fn captures_iter(re: &Regex, text: &str) -> (found: Vec<Vec<Option<String>>>)
    requires
        regex_plain(*re),
    ensures
        found.deep_view() == regex_captures_iter(regex_source(*re), text@),
{
    re.captures_iter(text).map(
        |groups| groups.iter().map(|m| m.map(|m| m.as_str().to_string())).collect(),
    ).collect()
}

} // verus!
