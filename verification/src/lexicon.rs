//! The words behind a leading dot that keep the dot from ending a sentence.

use vstd::prelude::*;
use regex::Regex;
use crate::pattern::find_group;
use crate::pattern::group_in;
use crate::text::chars_of;
use crate::text::is_ascii_digit;
use crate::text::lowercase;
use crate::text::lowercase_of;
use crate::text::same_text;

verus! {

/// The pattern that finds the stem of a word with a leading dot: the letters
/// and digits that follow the dot.
pub const DOT_WORD_PATTERN: &'static str = r"^\.([\p{L}\p{N}]*)";

/// `code` is one of the alpha-2 country codes that `rust_iso3166` lists.
pub uninterp spec fn iso_alpha2_listed(code: Seq<char>) -> bool;

/// `code` stands in `codes`.
pub open spec fn stands_in(codes: Seq<&'static str>, code: Seq<char>) -> bool {
    exists|i: int| 0 <= i < codes.len() && (#[trigger] codes[i])@ == code
}

/// Hands out `rust_iso3166::ALL_ALPHA2`, the table of alpha-2 country codes.
/// The contract names what the table holds: a text is a listed code exactly
/// when it stands in the table.
#[verifier::external_body]
fn alpha2_codes() -> (codes: &'static [&'static str])
    ensures
        forall|code: Seq<char>| #[trigger] iso_alpha2_listed(code) == stands_in(codes@, code),
{
    rust_iso3166::ALL_ALPHA2
}

/// The text is not empty and holds ASCII digits only.
pub open spec fn is_numeric(s: Seq<char>) -> bool {
    s.len() > 0 && forall|i: int| 0 <= i < s.len() ==> is_ascii_digit(#[trigger] s[i])
}

/// The words of the fixed list: names of tools, files and domains.
pub open spec fn is_fixed_abbreviation(s: Seq<char>) -> bool {
    ||| s == "net"@
    ||| s == "travis"@
    ||| s == "git"@
    ||| s == "gitignore"@
    ||| s == "com"@
    ||| s == "gov"@
    ||| s == "org"@
}

/// The text is the lower-case form of a listed alpha-2 country code.
pub open spec fn is_country_code(s: Seq<char>) -> bool {
    exists|code: Seq<char>| #[trigger] iso_alpha2_listed(code) && lowercase_of(code) == s
}

/// The text belongs to the lexicon of abbreviations: the fixed list and the
/// alpha-2 country codes in lower case.
pub open spec fn in_lexicon(s: Seq<char>) -> bool {
    is_fixed_abbreviation(s) || is_country_code(s)
}

/// A word with a leading dot keeps its dot when its stem, in lower case, is
/// `lowered` and `listed` says whether that is a country code.
pub open spec fn keeps_dot_given(word: Seq<char>, lowered: Option<Seq<char>>, listed: bool) -> bool {
    &&& word.len() > 1
    &&& word[0] == '.'
    &&& lowered is Some
    &&& (is_numeric(lowered->Some_0) || is_fixed_abbreviation(lowered->Some_0) || listed)
}

/// The stem of `word` in lower case, as the dot-word expression `re` finds it.
pub open spec fn lowered_stem(re: Option<Regex>, word: Seq<char>) -> Option<Seq<char>> {
    match re {
        Some(r) => match group_in(r, word, 1) {
            Some(stem) => Some(lowercase_of(stem)),
            None => None,
        },
        None => None,
    }
}

/// The dot that starts `word` is no end of a sentence: the word is longer
/// than the dot, and its stem in lower case is numeric or in the lexicon.
pub open spec fn keeps_dot(re: Option<Regex>, word: Seq<char>) -> bool {
    &&& word.len() > 1
    &&& word[0] == '.'
    &&& match lowered_stem(re, word) {
        Some(stem) => is_numeric(stem) || in_lexicon(stem),
        None => false,
    }
}

/// Whether a text is not empty and holds ASCII digits only.
pub fn is_numeric_text(s: &[char]) -> (r: bool)
    ensures
        r == is_numeric(s@),
{
    let n = s.len();
    if n == 0 {
        return false;
    }
    let mut i: usize = 0;
    while i < n
        invariant
            i <= n,
            n == s@.len(),
            forall|j: int| 0 <= j < i ==> is_ascii_digit(#[trigger] s@[j]),
        decreases n - i,
    {
        if !('0' <= s[i] && s[i] <= '9') {
            return false;
        }
        i += 1;
    }
    true
}

/// Whether a text holds the characters of `word`.
fn is_literally(s: &[char], word: &str) -> (r: bool)
    ensures
        r == (s@ == word@),
{
    let w = chars_of(word);
    same_text(s, w.as_slice())
}

/// Whether a text is one of the words of the fixed list.
pub fn is_fixed_abbreviation_text(s: &[char]) -> (r: bool)
    ensures
        r == is_fixed_abbreviation(s@),
{
    is_literally(s, "net") || is_literally(s, "travis") || is_literally(s, "git") || is_literally(
        s,
        "gitignore",
    ) || is_literally(s, "com") || is_literally(s, "gov") || is_literally(s, "org")
}

/// Whether `s` is the lower-case form of a listed alpha-2 country code.
pub fn is_country_code_text(s: &[char]) -> (r: bool)
    ensures
        r == is_country_code(s@),
{
    let codes = alpha2_codes();
    let n = codes.len();
    let mut i: usize = 0;
    while i < n
        invariant
            i <= n,
            n == codes@.len(),
            forall|code: Seq<char>| #[trigger] iso_alpha2_listed(code) == stands_in(codes@, code),
            forall|j: int| 0 <= j < i ==> lowercase_of((#[trigger] codes@[j])@) != s@,
        decreases n - i,
    {
        let code = chars_of(codes[i]);
        let lowered = lowercase(code.as_slice());
        if same_text(lowered.as_slice(), s) {
            proof {
                assert(stands_in(codes@, codes@[i as int]@));
                assert(iso_alpha2_listed(codes@[i as int]@));
            }
            return true;
        }
        i += 1;
    }
    proof {
        assert forall|code: Seq<char>| #[trigger] iso_alpha2_listed(code) implies lowercase_of(code)
            != s@ by {
            assert(stands_in(codes@, code));
            let j = choose|j: int| 0 <= j < codes@.len() && (#[trigger] codes@[j])@ == code;
            assert(lowercase_of(codes@[j]@) != s@);
        }
    }
    false
}

/// Whether a word keeps its leading dot, from the word, the lower-case form
/// of its stem where it has one, and whether that form is a country code.
pub fn decide_keeps_dot(word: &[char], lowered: &Option<Vec<char>>, listed: bool) -> (r: bool)
    ensures
        r == keeps_dot_given(
            word@,
            match *lowered {
                Some(l) => Some(l@),
                None => None,
            },
            listed,
        ),
{
    if word.len() <= 1 || word[0] != '.' {
        return false;
    }
    match lowered {
        Some(l) => is_numeric_text(l.as_slice()) || is_fixed_abbreviation_text(l.as_slice())
            || listed,
        None => false,
    }
}

/// Whether the dot that starts `word` is kept from ending a sentence, with
/// `re` the compiled dot-word expression.
pub fn word_keeps_dot(re: &Option<Regex>, word: &[char]) -> (r: bool)
    ensures
        r == keeps_dot(*re, word@),
{
    if word.len() <= 1 || word[0] != '.' {
        return false;
    }
    let lowered: Option<Vec<char>> = match re {
        Some(r) => match find_group(r, word, 1) {
            Some(stem) => Some(lowercase(stem.as_slice())),
            None => None,
        },
        None => None,
    };
    let listed = match &lowered {
        Some(l) => is_country_code_text(l.as_slice()),
        None => false,
    };
    decide_keeps_dot(word, &lowered, listed)
}

} // verus!
