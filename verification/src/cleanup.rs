//! The cleaning of sentences: stop words are removed, white space is
//! collapsed, and boilerplate is left out.

use vstd::prelude::*;
use regex::Regex;
use crate::pattern::matches_removed;
use crate::pattern::remove_matches;
use crate::text::chars_of;
use crate::text::is_ascii_blank;
use crate::text::is_ascii_graphic;
use crate::text::join_with_spaces;
use crate::text::joined_with_spaces;
use crate::text::lowercase;
use crate::text::lowercase_of;
use crate::text::split_words;
use crate::text::string_of;
use crate::text::texts_of;
use crate::text::words_of;

verus! {

/// A word starts at `i`: the character in front is an ASCII blank, and the
/// character at `i` is an ASCII letter, digit or punctuation mark.
pub open spec fn starts_word(s: Seq<char>, i: int) -> bool {
    0 < i < s.len() && is_ascii_blank(s[i - 1]) && is_ascii_graphic(s[i])
}

/// The number of places below `n` at which a word starts.
pub open spec fn word_starts(s: Seq<char>, n: nat) -> nat
    decreases n,
{
    if n == 0 {
        0
    } else {
        word_starts(s, (n - 1) as nat) + if starts_word(s, n - 1) {
            1nat
        } else {
            0nat
        }
    }
}

/// The approximate number of words of `s`: one for a text that is not empty,
/// and one more for each place at which a word starts.
pub open spec fn word_count(s: Seq<char>) -> nat {
    word_starts(s, s.len()) + if s.len() > 0 {
        1nat
    } else {
        0nat
    }
}

/// Fewer words start below `n` than there are places below `n`.
pub proof fn lemma_word_starts_bound(s: Seq<char>, n: nat)
    ensures
        word_starts(s, n) <= n,
        n > 0 ==> word_starts(s, n) < n,
    decreases n,
{
    if n > 0 {
        lemma_word_starts_bound(s, (n - 1) as nat);
    }
}

/// `needle` stands in `hay` at `i`.
pub open spec fn stands_at(hay: Seq<char>, needle: Seq<char>, i: int) -> bool {
    0 <= i && i + needle.len() <= hay.len() && hay.subrange(i, i + needle.len()) == needle
}

/// `needle` stands somewhere in `hay`.
pub open spec fn has_run(hay: Seq<char>, needle: Seq<char>) -> bool {
    exists|i: int| stands_at(hay, needle, i)
}

/// A cleaned sentence, of lower-case form `lowered`, is worth keeping: it
/// does not speak of cookies, holds no copyright sign and has a word.
pub open spec fn worth_keeping(cleaned: Seq<char>, lowered: Seq<char>) -> bool {
    !has_run(lowered, "cookie"@) && !cleaned.contains('\u{a9}') && word_count(cleaned) > 0
}

/// `s` without the matches of the stop-word expression, and with each run of
/// white space collapsed into one space and none left at the ends.
pub open spec fn cleaned(stop: Regex, s: Seq<char>) -> Seq<char> {
    joined_with_spaces(words_of(matches_removed(stop, s)))
}

/// The sentences cleaned, without those not worth keeping.
pub open spec fn applied(stop: Regex, sentences: Seq<Seq<char>>) -> Seq<Seq<char>>
    decreases sentences.len(),
{
    if sentences.len() == 0 {
        Seq::empty()
    } else {
        let front = applied(stop, sentences.drop_last());
        let text = cleaned(stop, sentences.last());
        if worth_keeping(text, lowercase_of(text)) {
            front.push(text)
        } else {
            front
        }
    }
}

/// The approximate number of words of `s`.
pub fn count_words(s: &str) -> (total: usize)
    ensures
        total == word_count(s@),
{
    let n = s.unicode_len();
    let mut total: usize = 0;
    let mut previous = '\u{10ffff}';
    for c in it: s.chars()
        invariant
            it.seq() == s@,
            n == s@.len(),
            total == word_starts(s@, it.index() as nat),
            it.index() > 0 ==> previous == s@[it.index() - 1],
            it.index() == 0 ==> !is_ascii_blank(previous),
    {
        proof {
            lemma_word_starts_bound(s@, (it.index() + 1) as nat);
        }
        if previous == ' ' || previous == '\t' || previous == '\n' || previous == '\u{c}'
            || previous == '\r' {
            if '!' <= c && c <= '~' {
                total += 1;
            }
        }
        previous = c;
    }
    proof {
        lemma_word_starts_bound(s@, s@.len());
    }
    if n > 0 {
        total += 1;
    }
    total
}

/// Whether `needle` stands somewhere in `hay`.
pub fn contains_run(hay: &[char], needle: &[char]) -> (r: bool)
    ensures
        r == has_run(hay@, needle@),
{
    let n = hay.len();
    let m = needle.len();
    if m > n {
        return false;
    }
    let mut i: usize = 0;
    while i <= n - m
        invariant
            m <= n,
            i <= n - m + 1,
            n == hay@.len(),
            m == needle@.len(),
            forall|k: int| 0 <= k < i ==> !stands_at(hay@, needle@, k),
        decreases n - m + 1 - i,
    {
        let mut j: usize = 0;
        while j < m && hay[i + j] == needle[j]
            invariant
                j <= m,
                i + m <= n,
                n == hay@.len(),
                m == needle@.len(),
                forall|k: int| 0 <= k < j ==> hay@[i + k] == needle@[k],
            decreases m - j,
        {
            j += 1;
        }
        if j == m {
            assert(hay@.subrange(i as int, i + m) =~= needle@);
            assert(stands_at(hay@, needle@, i as int));
            return true;
        }
        assert(!stands_at(hay@, needle@, i as int)) by {
            if stands_at(hay@, needle@, i as int) {
                assert(hay@.subrange(i as int, i + m)[j as int] == needle@[j as int]);
            }
        }
        i += 1;
    }
    false
}

/// Whether `c` stands in `text`.
pub fn contains_char(text: &[char], c: char) -> (r: bool)
    ensures
        r == text@.contains(c),
{
    let n = text.len();
    let mut i: usize = 0;
    while i < n
        invariant
            i <= n,
            n == text@.len(),
            forall|k: int| 0 <= k < i ==> text@[k] != c,
        decreases n - i,
    {
        if text[i] == c {
            return true;
        }
        i += 1;
    }
    false
}

/// Whether a cleaned sentence is worth keeping, with `lowered` its
/// lower-case form.
pub fn is_worth_keeping(cleaned: &str, lowered: &str) -> (r: bool)
    ensures
        r == worth_keeping(cleaned@, lowered@),
{
    let low = chars_of(lowered);
    let cookie = chars_of("cookie");
    let text = chars_of(cleaned);
    !contains_run(low.as_slice(), cookie.as_slice()) && !contains_char(text.as_slice(), '\u{a9}')
        && count_words(cleaned) > 0
}

/// Removes the matches of the stop-word expression from `sentence` and
/// collapses its white space.
pub fn clean(stop: &Regex, sentence: &str) -> (out: String)
    ensures
        out@ == cleaned(*stop, sentence@),
{
    let rest = remove_matches(stop, sentence);
    let words = split_words(rest.as_slice());
    let joined = join_with_spaces(&words);
    string_of(joined.as_slice())
}

/// Cleans the sentences and keeps those worth keeping, in their order: from
/// each the matches of the stop-word expression are removed and the white
/// space is collapsed; a sentence that then speaks of cookies, holds a
/// copyright sign or has no word is left out.
pub fn apply(sentences: Vec<String>, stop_word_regex: &Regex) -> (out: Vec<String>)
    ensures
        texts_of(out@) == applied(*stop_word_regex, texts_of(sentences@)),
{
    let mut out: Vec<String> = Vec::new();
    let n = sentences.len();
    let mut k: usize = 0;
    while k < n
        invariant
            k <= n,
            n == sentences@.len(),
            texts_of(out@) == applied(*stop_word_regex, texts_of(sentences@).take(k as int)),
        decreases n - k,
    {
        let text = clean(stop_word_regex, sentences[k].as_str());
        let text_chars = chars_of(text.as_str());
        let lowered = lowercase(text_chars.as_slice());
        let lowered_text = string_of(lowered.as_slice());
        proof {
            let all = texts_of(sentences@);
            assert(all.take(k + 1).drop_last() =~= all.take(k as int));
            assert(all.take(k + 1).last() == sentences@[k as int]@);
        }
        if is_worth_keeping(text.as_str(), lowered_text.as_str()) {
            let ghost before = texts_of(out@);
            out.push(text);
            assert(texts_of(out@) =~= before.push(text@));
        }
        k += 1;
    }
    assert(texts_of(sentences@).take(n as int) =~= texts_of(sentences@));
    out
}

} // verus!
