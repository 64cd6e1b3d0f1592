//! The joining of a chain of lines into one text, with the spacing around
//! punctuation repaired.

use vstd::prelude::*;
use regex::Regex;
use crate::lexicon::keeps_dot;
use crate::lexicon::word_keeps_dot;
use crate::lexicon::DOT_WORD_PATTERN;
use crate::pattern::compile;
use crate::pattern::compiled_from;
use crate::punctuation::class_of;
use crate::punctuation::classify;
use crate::punctuation::PunctuationClass;
use crate::text::is_word;
use crate::text::join_with_spaces;
use crate::text::lines_of_strs;
use crate::text::joined_with_spaces;
use crate::text::lemma_words_are_words;
use crate::text::split_words;
use crate::text::string_of;
use crate::text::strs_of;
use crate::text::views_of;
use crate::text::words_of;

verus! {

/// The space between two words goes when the character in front of it is
/// open-like, or when the character behind it is close-like and is not a dot
/// that its word keeps.
pub open spec fn gap_closes(
    left_class: PunctuationClass,
    right_class: PunctuationClass,
    right_keeps_dot: bool,
) -> bool {
    left_class == PunctuationClass::OpenLike || (!right_keeps_dot && right_class
        == PunctuationClass::CloseLike)
}

/// No space stands between the neighbouring words `left` and `right`.
pub open spec fn closes_gap(re: Option<Regex>, left: Seq<char>, right: Seq<char>) -> bool {
    gap_closes(class_of(left.last()), class_of(right.first()), keeps_dot(re, right))
}

/// The words in order, with one space between two neighbours unless their
/// gap closes.
pub open spec fn glued(re: Option<Regex>, words: Seq<Seq<char>>) -> Seq<char>
    decreases words.len(),
{
    if words.len() == 0 {
        Seq::empty()
    } else if words.len() == 1 {
        words[0]
    } else {
        let front = glued(re, words.drop_last());
        if closes_gap(re, words[words.len() - 2], words.last()) {
            front + words.last()
        } else {
            front.push(' ') + words.last()
        }
    }
}

/// The text of a chain: its lines are joined by spaces and cut into words,
/// and the words are glued.
pub open spec fn joined_chain(re: Option<Regex>, chain: Seq<Seq<char>>) -> Seq<char> {
    glued(re, words_of(joined_with_spaces(chain)))
}

/// The dot-word expression: the dot-word pattern compiled without regard to
/// case; `None` where the engine refuses it.
pub open spec fn dot_word_regex() -> Option<Regex> {
    compiled_from(DOT_WORD_PATTERN@, true)
}

/// Whether the space between two words goes, from the classes of the two
/// characters around it and whether the word behind it keeps its dot.
pub fn gap_is_closed(
    left_class: PunctuationClass,
    right_class: PunctuationClass,
    right_keeps_dot: bool,
) -> (r: bool)
    ensures
        r == gap_closes(left_class, right_class, right_keeps_dot),
{
    let left_opens = match left_class {
        PunctuationClass::OpenLike => true,
        _ => false,
    };
    let right_closes = match right_class {
        PunctuationClass::CloseLike => true,
        _ => false,
    };
    left_opens || (!right_keeps_dot && right_closes)
}

/// The dot-word expression, compiled; `None` where the engine refuses it.
pub fn dot_word_expression() -> (re: Option<Regex>)
    ensures
        re == dot_word_regex(),
{
    match compile(DOT_WORD_PATTERN) {
        Ok(re) => Some(re),
        Err(_) => None,
    }
}

/// Glues words.
fn glue(re: &Option<Regex>, words: &Vec<Vec<char>>) -> (out: Vec<char>)
    requires
        forall|k: int| 0 <= k < words@.len() ==> (#[trigger] words@[k])@.len() > 0,
    ensures
        out@ == glued(*re, views_of(words@)),
{
    let mut out: Vec<char> = Vec::new();
    let n = words.len();
    let mut k: usize = 0;
    while k < n
        invariant
            k <= n,
            n == words@.len(),
            forall|k: int| 0 <= k < words@.len() ==> (#[trigger] words@[k])@.len() > 0,
            out@ == glued(*re, views_of(words@).take(k as int)),
        decreases n - k,
    {
        let word = &words[k];
        let m = word.len();
        if k > 0 {
            let left = &words[k - 1];
            let left_class = classify(left[left.len() - 1]);
            let right_class = classify(word[0]);
            let kept = word_keeps_dot(re, word.as_slice());
            if !gap_is_closed(left_class, right_class, kept) {
                out.push(' ');
            }
        }
        let ghost base = out@;
        let mut j: usize = 0;
        while j < m
            invariant
                j <= m,
                m == word@.len(),
                out@ == base + word@.take(j as int),
            decreases m - j,
        {
            out.push(word[j]);
            j += 1;
            assert(word@.take(j as int) =~= word@.take(j - 1).push(word@[j - 1]));
            assert(out@ =~= base + word@.take(j as int));
        }
        k += 1;
        proof {
            let all = views_of(words@);
            assert(word@.take(m as int) =~= word@);
            assert(all.take(k as int).drop_last() =~= all.take(k - 1));
            assert(all.take(k as int).last() == word@);
            if k == 1 {
                assert(out@ =~= word@);
            } else {
                assert(all.take(k as int)[k - 2] == words@[k - 2]@);
            }
        }
    }
    assert(views_of(words@).take(n as int) =~= views_of(words@));
    out
}

/// Joins a chain of lines into one text, with `re` the compiled dot-word
/// expression.
pub fn join_chain(re: &Option<Regex>, chain: &Vec<Vec<char>>) -> (out: Vec<char>)
    ensures
        out@ == joined_chain(*re, views_of(chain@)),
{
    let joined = join_with_spaces(chain);
    let words = split_words(joined.as_slice());
    proof {
        lemma_words_are_words(joined@);
        assert forall|k: int| 0 <= k < words@.len() implies (#[trigger] words@[k])@.len() > 0 by {
            assert(views_of(words@)[k] == words@[k]@);
            assert(is_word(words_of(joined@)[k]));
        }
    }
    glue(re, &words)
}

/// Joins a chain of lines into one text. The lines are joined by single
/// spaces and cut into words at white space; the words are put together with
/// one space between neighbours, but with none behind an open-like character
/// and none in front of a close-like one, unless that is the dot of a word
/// that keeps its dot.
pub fn join_sentences(sentences: &[&str]) -> (out: String)
    ensures
        out@ == joined_chain(dot_word_regex(), strs_of(sentences@)),
{
    let chain = lines_of_strs(sentences);
    let re = dot_word_expression();
    let joined = join_chain(&re, &chain);
    string_of(joined.as_slice())
}

} // verus!
