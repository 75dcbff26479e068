//! The pattern engine behind the lexer.
//!
//! Token patterns are written as one regular expression and matched by the
//! `regex` crate. Everything that the library takes on trust from that crate
//! is stated here: that what it finds depends on the pattern and the text
//! alone. Which span it finds is never assumed; the lexer examines every
//! answer before it acts on it.

use regex::Regex;
use vstd::prelude::*;

verus! {

/// The byte spans of the capture groups of one match, by group index. Group
/// 0 is the whole match; a group that took no part in the match is `None`.
pub type Groups = Vec<Option<(usize, usize)>>;

/// What the `regex` crate reports when `pattern` is compiled with
/// `Regex::new` and searched for in `haystack` with `Regex::captures`:
/// `None` when the crate rejects the pattern or finds no match, and otherwise
/// the spans of the leftmost match, one for each group that
/// `Captures::iter` yields, as `Match::start` and `Match::end` give them.
pub uninterp spec fn regex_groups(pattern: Seq<char>, haystack: Seq<char>) -> Option<
    Seq<Option<(usize, usize)>>,
>;

/// The model of an engine answer.
pub open spec fn groups_view(groups: Option<Groups>) -> Option<Seq<Option<(usize, usize)>>> {
    match groups {
        Some(spans) => Some(spans@),
        None => None,
    }
}

/// Compiles `pattern` with `Regex::new` and runs `Regex::captures` on
/// `haystack`.
///
/// Trusted: the answer is the value that `regex_groups` names, that is, it
/// depends on the two strings and on nothing else. The pattern is compiled
/// on each call, so that no compiled state stands between the strings and
/// the answer.
#[verifier::external_body]
pub(crate) fn match_groups(pattern: &str, haystack: &str) -> (groups: Option<Groups>)
    ensures
        groups_view(groups) == regex_groups(pattern@, haystack@),
{
    let regex = Regex::new(pattern).ok()?;
    let captures = regex.captures(haystack)?;
    Some(captures.iter().map(|group| group.map(|m| (m.start(), m.end()))).collect())
}

} // verus!
