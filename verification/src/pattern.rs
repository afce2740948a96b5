//! Regular expressions, as the `regex` crate matches them.
//!
//! Nothing here is proved: the contracts record what the crate documents.
//! What a pattern matches is not spelled out; it is given a name, so that
//! callers can say what they do with a match.

use regex::Regex;
use vstd::prelude::*;

verus! {

#[verifier::external_type_specification]
#[verifier::external_body]
pub struct ExRegex(regex::Regex);

#[verifier::external_type_specification]
#[verifier::external_body]
pub struct ExRegexError(regex::Error);

/// Whether `Regex::new` accepts the pattern.
pub uninterp spec fn regex_valid(pattern: Seq<char>) -> bool;

/// The pattern that a compiled expression was made from, as `Regex::as_str`
/// returns it.
pub uninterp spec fn regex_source(re: Regex) -> Seq<char>;

/// What `Regex::captures` finds for the pattern in the haystack: `None` if
/// the pattern matches nowhere, else the text of each capture group of the
/// leftmost match, group 0 being the whole match, with `None` for a group
/// that took no part in it.
pub uninterp spec fn regex_captures(pattern: Seq<char>, haystack: Seq<char>) -> Option<
    Seq<Option<Seq<char>>>,
>;

/// The text of each group of a match, as a sequence of optional texts.
pub open spec fn groups_view(groups: Seq<Option<String>>) -> Seq<Option<Seq<char>>> {
    groups.map_values(
        |g: Option<String>|
            match g {
                Some(text) => Some(text@),
                None => None,
            },
    )
}

/// The groups of an optional match, as plain values.
pub open spec fn captures_view(found: Option<Vec<Option<String>>>) -> Option<
    Seq<Option<Seq<char>>>,
> {
    match found {
        Some(groups) => Some(groups_view(groups@)),
        None => None,
    }
}

/// `Regex::new`: compiles the pattern. It succeeds exactly on the patterns
/// that the crate accepts, and the compiled expression remembers its pattern.
#[verifier::external_body]
pub(crate) fn compile(pattern: &str) -> (r: Result<Regex, regex::Error>)
    ensures
        r is Ok <==> regex_valid(pattern@),
        match r {
            Ok(re) => regex_source(re) == pattern@,
            Err(_) => true,
        },
{
    Regex::new(pattern)
}

/// `Regex::captures`: the capture groups of the leftmost match of the
/// expression in the haystack, each copied out as text.
#[verifier::external_body]
pub(crate) fn captures(re: &Regex, haystack: &str) -> (found: Option<Vec<Option<String>>>)
    ensures
        captures_view(found) == regex_captures(regex_source(*re), haystack@),
{
    re.captures(haystack).map(|caps| caps.iter().map(|m| m.map(|m| m.as_str().to_string())).collect())
}

/// The text of group `i` of a match, if the match has such a group and the
/// group took part in it.
pub open spec fn group(groups: Seq<Option<Seq<char>>>, i: int) -> Option<Seq<char>> {
    if 0 <= i < groups.len() {
        groups[i]
    } else {
        None
    }
}

/// The text of group `i`, copied out.
pub fn group_text(groups: &Vec<Option<String>>, i: usize) -> (r: Option<String>)
    ensures
        match r {
            Some(text) => group(groups_view(groups@), i as int) == Some(text@),
            None => group(groups_view(groups@), i as int) is None,
        },
{
    if i < groups.len() {
        match &groups[i] {
            Some(text) => Some(text.clone()),
            None => None,
        }
    } else {
        None
    }
}

} // verus!
