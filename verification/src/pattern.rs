//! Regular expressions, as far as the library uses them: a pattern is compiled
//! without regard to case, and a compiled pattern finds a group or removes its
//! matches.

use vstd::prelude::*;
use regex::Regex;
use regex::RegexBuilder;

verus! {

/// `regex::Regex`, a compiled expression, which is carried as it is.
#[verifier::external_type_specification]
#[verifier::external_body]
pub struct ExRegex(Regex);

/// `regex::Error`, which says why the engine refused a pattern.
#[verifier::external_type_specification]
#[verifier::external_body]
pub struct ExRegexError(regex::Error);

/// Why a pattern was refused.
#[derive(Clone, Copy, Debug, PartialEq, Eq, Structural)]
pub enum PatternError {
    /// The pattern is not a regular expression that the engine accepts.
    Invalid,
}

/// The expression that `regex` compiles from `pattern`, with or without
/// regard to case, where it accepts the pattern.
pub uninterp spec fn compiled_from(pattern: Seq<char>, ignore_case: bool) -> Option<Regex>;

/// What the capture group of the number `index` holds in the leftmost match
/// of `re` in `text`, where there is a match and the group took part in it.
pub uninterp spec fn group_in(re: Regex, text: Seq<char>, index: int) -> Option<Seq<char>>;

/// `text` without the matches of `re`.
pub uninterp spec fn matches_removed(re: Regex, text: Seq<char>) -> Seq<char>;

/// Compiles `pattern` with `regex::RegexBuilder`, case-insensitively where
/// `ignore_case` says so. The contract names the outcome
/// `compiled_from(pattern, ignore_case)`: the engine accepts a pattern or
/// refuses it by the pattern's text and the setting alone, and two
/// expressions compiled from one text behave alike.
#[verifier::external_body]
fn build(pattern: &str, ignore_case: bool) -> (outcome: Result<Regex, regex::Error>)
    ensures
        outcome is Ok ==> compiled_from(pattern@, ignore_case) == Some(outcome->Ok_0),
        outcome is Err ==> compiled_from(pattern@, ignore_case) is None,
{
    RegexBuilder::new(pattern).case_insensitive(ignore_case).build()
}

/// Runs `Regex::captures` and hands out the text of the group of the number
/// `index`. The contract names the outcome `group_in(re, text, index)`.
#[verifier::external_body]
fn capture_group(re: &Regex, text: &str, index: usize) -> (group: Option<String>)
    ensures
        group is Some <==> group_in(*re, text@, index as int) is Some,
        group is Some ==> group->Some_0@ == group_in(*re, text@, index as int)->Some_0,
{
    match re.captures(text) {
        Some(found) => found.get(index).map(|m| m.as_str().to_string()),
        None => None,
    }
}

/// Runs `Regex::replace_all` with the empty replacement. The contract names
/// the outcome `matches_removed(re, text)`.
#[verifier::external_body]
fn replace_matches_with_nothing(re: &Regex, text: &str) -> (rest: String)
    ensures
        rest@ == matches_removed(*re, text@),
{
    re.replace_all(text, "").into_owned()
}

/// Compiles `pattern` without regard to case. A pattern that the engine does
/// not accept is refused here, before anything is matched with it.
pub fn compile(pattern: &str) -> (outcome: Result<Regex, PatternError>)
    ensures
        outcome is Ok <==> compiled_from(pattern@, true) is Some,
        outcome is Ok ==> compiled_from(pattern@, true) == Some(outcome->Ok_0),
        outcome is Err ==> outcome->Err_0 == PatternError::Invalid,
{
    match build(pattern, true) {
        Ok(re) => Ok(re),
        Err(_) => Err(PatternError::Invalid),
    }
}

/// What the capture group of the number `index` holds in the leftmost match
/// of `re` in `text`.
pub fn find_group(re: &Regex, text: &[char], index: usize) -> (group: Option<Vec<char>>)
    ensures
        group is Some <==> group_in(*re, text@, index as int) is Some,
        group is Some ==> group->Some_0@ == group_in(*re, text@, index as int)->Some_0,
{
    let as_string = crate::text::string_of(text);
    match capture_group(re, as_string.as_str(), index) {
        Some(found) => Some(crate::text::chars_of(found.as_str())),
        None => None,
    }
}

/// `text` without the matches of `re`.
pub fn remove_matches(re: &Regex, text: &str) -> (rest: Vec<char>)
    ensures
        rest@ == matches_removed(*re, text@),
{
    let replaced = replace_matches_with_nothing(re, text);
    crate::text::chars_of(replaced.as_str())
}

} // verus!
