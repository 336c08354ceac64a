//! Matching of a command line against a configured pattern.
//!
//! A pattern matches a command line when it occurs in it literally, or when
//! it finds a match as a case-insensitive regular expression.

use vstd::prelude::*;
use crate::text::{chars_of, contains, has_substring};

verus! {

/// What a case-insensitive regular-expression search for `pattern` in `text`
/// gives: `None` when `pattern` is not a valid expression, otherwise whether
/// a match exists anywhere in `text`.
pub uninterp spec fn regex_ci_search(pattern: Seq<char>, text: Seq<char>) -> Option<bool>;

/// Compiles `pattern` with `regex::RegexBuilder` (case-insensitive, all other
/// options at their defaults) and asks `regex::Regex::is_match` for `text`.
///
/// Trusted: the result is a function of the two strings alone. A pattern that
/// `build` rejects gives `None`; nothing is claimed about which patterns
/// those are or which texts match.
#[verifier::external_body]
fn regex_search(pattern: &str, text: &str) -> (found: Option<bool>)
    ensures
        found == regex_ci_search(pattern@, text@),
{
    match regex::RegexBuilder::new(pattern).case_insensitive(true).build() {
        Ok(re) => Some(re.is_match(text)),
        Err(_) => None,
    }
}

/// The verdict on one command line, given the outcome of the literal search
/// and of the regular-expression search: either success counts, and a
/// pattern that is no valid expression simply contributes nothing.
pub open spec fn verdict(literal: bool, regex: Option<bool>) -> bool {
    literal || regex == Some(true)
}

/// Whether `pattern` matches the command line `cmd`.
pub open spec fn command_matches(cmd: Seq<char>, pattern: Seq<char>) -> bool {
    verdict(has_substring(cmd, pattern), regex_ci_search(pattern, cmd))
}

/// Combines the two search outcomes into the verdict.
pub fn decide(literal: bool, regex: Option<bool>) -> (hit: bool)
    ensures
        hit == verdict(literal, regex),
{
    if literal {
        true
    } else {
        match regex {
            Some(found) => found,
            None => false,
        }
    }
}

/// Decides whether `pattern` matches `cmd`. The regular expression is only
/// consulted when the literal search fails.
pub fn matches_command(cmd: &str, pattern: &str) -> (hit: bool)
    ensures
        hit == command_matches(cmd@, pattern@),
{
    let text = chars_of(cmd);
    let pat = chars_of(pattern);
    if contains(&text, &pat) {
        true
    } else {
        decide(false, regex_search(pattern, cmd))
    }
}

} // verus!
