//! The splitting of a text into sentence-like units at light delimiters.

use vstd::prelude::*;
use crate::text::char_is_space_separator;
use crate::text::chars_of;
use crate::text::is_blank;
use crate::text::is_space_separator;
use crate::text::join_with_spaces;
use crate::text::joined_with_spaces;
use crate::text::lines_of_strs;
use crate::text::lemma_trimmed_keeps_text;
use crate::text::lowercase;
use crate::text::lowercase_of;
use crate::text::same_text;
use crate::text::split_words;
use crate::text::strings_of;
use crate::text::strs_of;
use crate::text::texts_of;
use crate::text::trim;
use crate::text::trimmed;
use crate::text::views_of;
use crate::text::words_of;

verus! {

/// The length of the delimiter that starts at `i`, or 0 where none starts
/// there. A delimiter is a vertical bar, a space separator in front of a
/// hyphen, or a hyphen in front of a space separator.
pub open spec fn delimiter_len(s: Seq<char>, i: int) -> nat {
    if s[i] == '|' {
        1
    } else if i + 1 < s.len() && ((is_space_separator(s[i]) && s[i + 1] == '-') || (s[i] == '-'
        && is_space_separator(s[i + 1]))) {
        2
    } else {
        0
    }
}

/// The parts of `s` from `i` on, with `open` the characters of the part that
/// is being read: the delimiters are found from left to right, none inside
/// another, and the parts are what stands between them.
pub open spec fn parts_from(s: Seq<char>, i: int, open: Seq<char>) -> Seq<Seq<char>>
    decreases s.len() - i,
{
    if i < 0 || i >= s.len() {
        seq![open]
    } else if delimiter_len(s, i) > 0 {
        seq![open] + parts_from(s, i + delimiter_len(s, i), Seq::empty())
    } else {
        parts_from(s, i + 1, open.push(s[i]))
    }
}

/// The parts of `s` between its delimiters.
pub open spec fn parts_of(s: Seq<char>) -> Seq<Seq<char>> {
    parts_from(s, 0, Seq::empty())
}

/// The parts trimmed, without those of which nothing is left.
pub open spec fn kept_units(parts: Seq<Seq<char>>) -> Seq<Seq<char>>
    decreases parts.len(),
{
    if parts.len() == 0 {
        Seq::empty()
    } else if is_blank(parts.last()) {
        kept_units(parts.drop_last())
    } else {
        kept_units(parts.drop_last()).push(trimmed(parts.last()))
    }
}

/// The sentence-like units of `s`: its parts, trimmed, the blank ones left out.
pub open spec fn units_of(s: Seq<char>) -> Seq<Seq<char>> {
    kept_units(parts_of(s))
}

/// A unit is not empty and neither starts nor ends with white space.
pub open spec fn is_unit(u: Seq<char>) -> bool {
    u.len() > 0 && trimmed(u) == u
}

/// Every kept unit is a unit.
pub proof fn lemma_kept_units_are_units(parts: Seq<Seq<char>>)
    ensures
        forall|k: int| 0 <= k < kept_units(parts).len() ==> is_unit(#[trigger] kept_units(parts)[k]),
    decreases parts.len(),
{
    if parts.len() > 0 {
        lemma_kept_units_are_units(parts.drop_last());
        lemma_trimmed_keeps_text(parts.last());
        let front = kept_units(parts.drop_last());
        assert forall|k: int| 0 <= k < kept_units(parts).len() implies is_unit(
            #[trigger] kept_units(parts)[k],
        ) by {
            if k < front.len() {
                assert(kept_units(parts)[k] == front[k]);
            }
        }
    }
}

/// Cuts `text` at its delimiters.
pub fn split_at_delimiters(text: &[char]) -> (parts: Vec<Vec<char>>)
    ensures
        views_of(parts@) == parts_of(text@),
{
    let mut parts: Vec<Vec<char>> = Vec::new();
    let mut open: Vec<char> = Vec::new();
    let n = text.len();
    let mut i: usize = 0;
    while i < n
        invariant
            i <= n,
            n == text@.len(),
            parts_of(text@) == views_of(parts@) + parts_from(text@, i as int, open@),
        decreases n - i,
    {
        let c = text[i];
        let pair = i + 1 < n && ((char_is_space_separator(c) && text[i + 1] == '-') || (c == '-'
            && char_is_space_separator(text[i + 1])));
        let ghost before = views_of(parts@);
        let ghost was_open = open@;
        if c == '|' {
            parts.push(open);
            open = Vec::new();
            i += 1;
            assert(views_of(parts@) =~= before.push(was_open));
            assert(before + (seq![was_open] + parts_from(text@, i as int, Seq::empty()))
                =~= before.push(was_open) + parts_from(text@, i as int, Seq::empty()));
        } else if pair {
            parts.push(open);
            open = Vec::new();
            i += 2;
            assert(views_of(parts@) =~= before.push(was_open));
            assert(before + (seq![was_open] + parts_from(text@, i as int, Seq::empty()))
                =~= before.push(was_open) + parts_from(text@, i as int, Seq::empty()));
        } else {
            open.push(c);
            i += 1;
        }
    }
    let ghost before = views_of(parts@);
    parts.push(open);
    assert(views_of(parts@) =~= before + seq![open@]);
    parts
}

/// Trims the parts and leaves out those of which nothing is left.
pub fn keep_units(parts: &Vec<Vec<char>>) -> (units: Vec<Vec<char>>)
    ensures
        views_of(units@) == kept_units(views_of(parts@)),
{
    let mut units: Vec<Vec<char>> = Vec::new();
    let n = parts.len();
    let mut k: usize = 0;
    while k < n
        invariant
            k <= n,
            n == parts@.len(),
            views_of(units@) == kept_units(views_of(parts@).take(k as int)),
        decreases n - k,
    {
        let unit = trim(parts[k].as_slice());
        let ghost before = views_of(units@);
        proof {
            lemma_trimmed_keeps_text(parts@[k as int]@);
            let all = views_of(parts@);
            assert(all.take(k + 1).drop_last() =~= all.take(k as int));
            assert(all.take(k + 1).last() == parts@[k as int]@);
        }
        if unit.len() > 0 {
            units.push(unit);
            assert(views_of(units@) =~= before.push(unit@));
        }
        k += 1;
    }
    assert(views_of(parts@).take(n as int) =~= views_of(parts@));
    units
}

/// The sentence-like units of `text`.
pub fn split_units(text: &[char]) -> (units: Vec<Vec<char>>)
    ensures
        views_of(units@) == units_of(text@),
        forall|k: int| 0 <= k < units@.len() ==> is_unit(#[trigger] views_of(units@)[k]),
{
    let parts = split_at_delimiters(text);
    proof {
        lemma_kept_units_are_units(parts_of(text@));
    }
    keep_units(&parts)
}

/// `word`, in lower case, is one of the stop words.
pub open spec fn is_stop_word(stops: Seq<Seq<char>>, word: Seq<char>) -> bool {
    stops.contains(lowercase_of(word))
}

/// The state of a scan that cuts a sequence of words at the stop words: the
/// pieces that are complete, and the words of the piece that is still open.
pub struct StopScan {
    pub done: Seq<Seq<char>>,
    pub open: Seq<Seq<char>>,
}

/// The pieces that a scan has found once the words have ended: the open
/// words, where there are any, make a last piece, joined by single spaces.
pub open spec fn closed_pieces(scan: StopScan) -> Seq<Seq<char>> {
    if scan.open.len() > 0 {
        scan.done.push(joined_with_spaces(scan.open))
    } else {
        scan.done
    }
}

/// The scan after the first `n` words: a stop word closes the open piece and
/// is dropped, any other word joins the open piece.
pub open spec fn stop_scan(words: Seq<Seq<char>>, stops: Seq<Seq<char>>, n: nat) -> StopScan
    decreases n,
{
    if n == 0 {
        StopScan { done: Seq::empty(), open: Seq::empty() }
    } else {
        let before = stop_scan(words, stops, (n - 1) as nat);
        if is_stop_word(stops, words[n - 1]) {
            StopScan { done: closed_pieces(before), open: Seq::empty() }
        } else {
            StopScan { done: before.done, open: before.open.push(words[n - 1]) }
        }
    }
}

/// The pieces of `s` between its stop words: the words of `s` that are no
/// stop words, those that no stop word parts joined by single spaces.
pub open spec fn pieces_between(s: Seq<char>, stops: Seq<Seq<char>>) -> Seq<Seq<char>> {
    closed_pieces(stop_scan(words_of(s), stops, words_of(s).len()))
}

/// The pieces of each unit, in order.
pub open spec fn pieces_of_units(units: Seq<Seq<char>>, stops: Seq<Seq<char>>) -> Seq<Seq<char>>
    decreases units.len(),
{
    if units.len() == 0 {
        Seq::empty()
    } else {
        pieces_of_units(units.drop_last(), stops) + pieces_between(units.last(), stops)
    }
}

/// What a sentence is split into: its units, each cut further at the stop
/// words where there are any.
pub open spec fn split_with(s: Seq<char>, stops: Option<Seq<Seq<char>>>) -> Seq<Seq<char>> {
    match stops {
        Some(words) => pieces_of_units(units_of(s), words),
        None => units_of(s),
    }
}

/// Whether `word` stands in `list`.
pub fn stands_in_list(list: &Vec<Vec<char>>, word: &[char]) -> (r: bool)
    ensures
        r == views_of(list@).contains(word@),
{
    let n = list.len();
    let mut i: usize = 0;
    while i < n
        invariant
            i <= n,
            n == list@.len(),
            forall|j: int| 0 <= j < i ==> views_of(list@)[j] != word@,
        decreases n - i,
    {
        if same_text(list[i].as_slice(), word) {
            assert(views_of(list@)[i as int] == word@);
            return true;
        }
        i += 1;
    }
    false
}

/// Cuts `sentence` at the words that, in lower case, stand in `stops`.
pub fn pieces_of(sentence: &[char], stops: &Vec<Vec<char>>) -> (pieces: Vec<Vec<char>>)
    ensures
        views_of(pieces@) == pieces_between(sentence@, views_of(stops@)),
{
    let words = split_words(sentence);
    let ghost all = views_of(words@);
    let ghost list = views_of(stops@);
    let mut pieces: Vec<Vec<char>> = Vec::new();
    let mut open: Vec<Vec<char>> = Vec::new();
    let n = words.len();
    let mut k: usize = 0;
    while k < n
        invariant
            k <= n,
            n == words@.len(),
            all == views_of(words@),
            list == views_of(stops@),
            views_of(pieces@) == stop_scan(all, list, k as nat).done,
            views_of(open@) == stop_scan(all, list, k as nat).open,
        decreases n - k,
    {
        let lowered = lowercase(words[k].as_slice());
        if stands_in_list(stops, lowered.as_slice()) {
            if open.len() > 0 {
                let piece = join_with_spaces(&open);
                let ghost before = views_of(pieces@);
                pieces.push(piece);
                assert(views_of(pieces@) =~= before.push(piece@));
                open = Vec::new();
            }
            assert(views_of(open@) =~= Seq::<Seq<char>>::empty());
        } else {
            let word = words[k].clone();
            assert(word@ == words@[k as int]@);
            let ghost before = views_of(open@);
            open.push(word);
            assert(views_of(open@) =~= before.push(word@));
        }
        k += 1;
    }
    if open.len() > 0 {
        let piece = join_with_spaces(&open);
        let ghost before = views_of(pieces@);
        pieces.push(piece);
        assert(views_of(pieces@) =~= before.push(piece@));
    }
    pieces
}

/// Moves the elements of `more` behind those of `all`.
pub fn extend_lines(all: &mut Vec<Vec<char>>, more: Vec<Vec<char>>)
    ensures
        views_of(final(all)@) == views_of(old(all)@) + views_of(more@),
{
    let ghost before = views_of(all@);
    let ghost added = views_of(more@);
    let mut more = more;
    all.append(&mut more);
    assert(views_of(all@) =~= before + added);
}

/// Splits a sentence, given as its characters.
pub fn split_text(sentence: &[char], stops: &Option<Vec<Vec<char>>>) -> (out: Vec<Vec<char>>)
    ensures
        views_of(out@) == split_with(
            sentence@,
            match *stops {
                Some(list) => Some(views_of(list@)),
                None => None,
            },
        ),
{
    let units = split_units(sentence);
    match stops {
        None => units,
        Some(list) => {
            let mut out: Vec<Vec<char>> = Vec::new();
            let n = units.len();
            let mut k: usize = 0;
            while k < n
                invariant
                    k <= n,
                    n == units@.len(),
                    views_of(out@) == pieces_of_units(
                        views_of(units@).take(k as int),
                        views_of(list@),
                    ),
                decreases n - k,
            {
                let pieces = pieces_of(units[k].as_slice(), list);
                extend_lines(&mut out, pieces);
                k += 1;
                proof {
                    let all = views_of(units@);
                    assert(all.take(k as int).drop_last() =~= all.take(k - 1));
                    assert(all.take(k as int).last() == units@[k - 1]@);
                }
            }
            assert(views_of(units@).take(n as int) =~= views_of(units@));
            out
        },
    }
}

/// Cuts `sentence` into its words and puts them together again, with single
/// spaces, in pieces that end where a word, in lower case, is one of
/// `split_words`; those words are dropped.
pub fn split_by_words(sentence: &str, split_words: &[&str]) -> (pieces: Vec<String>)
    ensures
        texts_of(pieces@) == pieces_between(sentence@, strs_of(split_words@)),
{
    let text = chars_of(sentence);
    let stops = lines_of_strs(split_words);
    let pieces = pieces_of(text.as_slice(), &stops);
    strings_of(&pieces)
}

/// Splits `sentence` at the light delimiters (a vertical bar, a space
/// separator in front of a hyphen, a hyphen in front of a space separator),
/// trims the parts and drops those of which nothing is left. Where
/// `split_words` are given, each part is cut further at those words.
pub fn split_sentence(sentence: &str, split_words: Option<&[&str]>) -> (units: Vec<String>)
    ensures
        texts_of(units@) == split_with(
            sentence@,
            match split_words {
                Some(words) => Some(strs_of(words@)),
                None => None,
            },
        ),
{
    let text = chars_of(sentence);
    let stops: Option<Vec<Vec<char>>> = match split_words {
        Some(words) => Some(lines_of_strs(words)),
        None => None,
    };
    let units = split_text(text.as_slice(), &stops);
    strings_of(&units)
}

} // verus!
