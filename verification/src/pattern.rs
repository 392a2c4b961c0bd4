//! The only door to the `regex` crate.
//!
//! Every pattern search of the library goes through [`is_match`] or [`capture`].  Verus does
//! not look inside `regex`; what a search returns is therefore named by the uninterpreted
//! functions below, and the rest of the library states its contracts over those names.
//!
//! Both functions go from plain values to plain values: they take the pattern as text and
//! compile it on each call, so that no compiled regex, which Verus could say nothing of,
//! is ever held.  A dump has some dozen lines; the cost is a few searches for each.

use vstd::prelude::*;
use crate::text::find::occurs_at;

verus! {

/// Whether `regex::Regex::new` accepts `pattern`.
pub uninterp spec fn regex_compiles(pattern: Seq<char>) -> bool;

/// What `regex::Regex::is_match` answers for `text` on the regex that `regex::Regex::new`
/// builds from `pattern`.
pub uninterp spec fn regex_is_match(pattern: Seq<char>, text: Seq<char>) -> bool;

/// The part of `text` that the capture group named `group` holds in the leftmost match of
/// `pattern`, as `regex::Regex::captures` followed by `regex::Captures::name` reports it;
/// `None` where the pattern has no group of that name or the group took no part in the match.
pub uninterp spec fn regex_group(pattern: Seq<char>, text: Seq<char>, group: Seq<char>) -> Option<
    Seq<char>,
>;

/// `pattern` is a regular expression that finds a match somewhere in `text`.
pub open spec fn pattern_matches(pattern: Seq<char>, text: Seq<char>) -> bool {
    regex_compiles(pattern) && regex_is_match(pattern, text)
}

/// The view of an optional string slice.
pub open spec fn opt_str_view(s: Option<&str>) -> Option<Seq<char>> {
    match s {
        Some(t) => Some(t@),
        None => None,
    }
}

/// The views of what a capture returned.
pub open spec fn group_view(g: Option<Option<&str>>) -> Option<Option<Seq<char>>> {
    match g {
        Some(Some(s)) => Some(Some(s@)),
        Some(None) => Some(None),
        None => None,
    }
}

/// `part` stands somewhere in `text`.
pub open spec fn is_part_of(part: Seq<char>, text: Seq<char>) -> bool {
    exists|at: int| occurs_at(text, part, at)
}

/// What [`capture`] returns, as plain values: `None` where the pattern does not match
/// (or is no pattern), otherwise the named group of the leftmost match.  What a group
/// holds is a part of `text`.
pub open spec fn captured(pattern: Seq<char>, text: Seq<char>, group: Seq<char>) -> Option<
    Option<Seq<char>>,
> {
    if pattern_matches(pattern, text) {
        match regex_group(pattern, text, group) {
            Some(part) if is_part_of(part, text) => Some(Some(part)),
            _ => Some(None),
        }
    } else {
        None
    }
}

/// Calls `regex::Regex::new` on `pattern` and `regex::Regex::is_match` on the result.
///
/// Trusted: the answer is `true` exactly when the pattern compiles and the compiled regex
/// reports a match anywhere in `text`.  A pattern that `Regex::new` rejects gives `false`.
#[verifier::external_body]
pub(crate) fn is_match(pattern: &str, text: &str) -> (found: bool)
    ensures
        found == (regex_compiles(pattern@) && regex_is_match(pattern@, text@)),
{
    match regex::Regex::new(pattern) {
        Ok(re) => re.is_match(text),
        Err(_) => false,
    }
}

/// Calls `regex::Regex::new` on `pattern`, `regex::Regex::captures` on `text`, and
/// `regex::Captures::name` with `group` on the leftmost match.
///
/// Trusted: the outer `Option` is `Some` exactly when the pattern compiles and
/// `Regex::is_match` would report a match (`captures` and `is_match` search for the same
/// thing); the inner one is what `Captures::name` hands out for `group`, and that is a
/// slice of `text` (`Match::as_str` cuts it out of the haystack).
#[verifier::external_body]
pub(crate) fn capture<'a>(pattern: &str, text: &'a str, group: &str) -> (found: Option<Option<&'a str>>)
    ensures
        found is Some <==> (regex_compiles(pattern@) && regex_is_match(pattern@, text@)),
        found matches Some(part) ==> opt_str_view(part) == regex_group(pattern@, text@, group@),
        found matches Some(Some(part)) ==> exists|at: int| occurs_at(text@, part@, at),
{
    let re = regex::Regex::new(pattern).ok()?;
    let caps = re.captures(text)?;
    Some(caps.name(group).map(|m| m.as_str()))
}

} // verus!
