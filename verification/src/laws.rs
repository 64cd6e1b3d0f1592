//! What holds of the grouping and splitting on every input.

use vstd::prelude::*;
use regex::Regex;
use crate::cleanup::applied;
use crate::cleanup::cleaned;
use crate::cleanup::stands_at;
use crate::cleanup::worth_keeping;
use crate::grouper::emitted;
use crate::grouper::group_scan;
use crate::grouper::grouped;
use crate::grouper::groups_of;
use crate::grouper::lemma_group_scan;
use crate::grouper::paragraphs_of;
use crate::grouper::read_token;
use crate::grouper::survives;
use crate::grouper::threshold_in_force;
use crate::joiner::dot_word_regex;
use crate::pattern::matches_removed;
use crate::joiner::closes_gap;
use crate::joiner::glued;
use crate::joiner::joined_chain;
use crate::regroup::chain_scan;
use crate::regroup::chains_of;
use crate::regroup::lemma_regrouped_gives_units;
use crate::regroup::lines_tied;
use crate::regroup::units_of_chains;
use crate::regroup::regrouped;
use crate::splitter::delimiter_len;
use crate::splitter::is_unit;
use crate::splitter::kept_units;
use crate::splitter::parts_from;
use crate::splitter::parts_of;
use crate::splitter::split_with;
use crate::splitter::units_of;
use crate::text::is_blank;
use crate::text::is_white_space;
use crate::text::is_word;
use crate::text::joined_with_spaces;
use crate::text::lemma_blank_iff_trimmed_empty;
use crate::text::lemma_words_are_words;
use crate::text::lowercase_of;
use crate::text::trimmed;
use crate::text::words_of;
use crate::tokens::tokens_of;

verus! {

/// The lines of the paragraphs, read paragraph by paragraph, are the tokens
/// that survive, in the order of the document: no line is lost, doubled or
/// moved.
pub proof fn law_paragraphs_keep_document_order(tokens: Seq<Seq<char>>, threshold: int)
    ensures
        paragraphs_of(tokens, threshold).flatten() == tokens.filter(|t: Seq<char>| survives(t)),
{
    lemma_scan_keeps_document_order(tokens, threshold, tokens.len());
    lemma_group_scan(tokens, threshold, tokens.len());
    let scan = group_scan(tokens, threshold, tokens.len());
    assert(tokens.take(tokens.len() as int) =~= tokens);
    assert(scan.groups.flatten() + scan.lines =~= scan.groups.flatten());
}

/// At every step the lines held, paragraph by paragraph and then those
/// gathered, are the tokens read that survive.
proof fn lemma_scan_keeps_document_order(tokens: Seq<Seq<char>>, threshold: int, n: nat)
    requires
        n <= tokens.len(),
    ensures
        group_scan(tokens, threshold, n).groups.flatten() + group_scan(tokens, threshold, n).lines
            == tokens.take(n as int).filter(|t: Seq<char>| survives(t)),
    decreases n,
{
    broadcast use vstd::seq::Seq::lemma_flatten_push;

    reveal(Seq::filter);
    let keep = |t: Seq<char>| survives(t);
    let after = group_scan(tokens, threshold, n);
    if n == 0 {
        assert(after.groups.flatten() + after.lines =~= tokens.take(0).filter(keep));
    } else {
        let before = group_scan(tokens, threshold, (n - 1) as nat);
        lemma_scan_keeps_document_order(tokens, threshold, (n - 1) as nat);
        let token = tokens[n - 1];
        let read = read_token(before, token);
        assert(tokens.take(n as int).drop_last() =~= tokens.take(n - 1));
        assert(tokens.take(n as int).last() == token);
        if crate::tokens::is_break(token) {
            assert(is_white_space(token[0]));
            assert(is_blank(token));
        }
        assert(read.groups.flatten() + read.lines =~= tokens.take(n as int).filter(keep));
        assert(after.groups.flatten() + after.lines =~= read.groups.flatten() + read.lines);
    }
}

/// With the threshold 0 the groups are the paragraphs as they stand: read
/// group by group, they are the lines that survive, in the order of the
/// document, and no group is empty.
pub proof fn law_verbatim_groups_keep_document_order(
    stop: Option<Regex>,
    fragments: Seq<Seq<char>>,
)
    ensures
        grouped(stop, fragments, Some(0i32)).flatten() == tokens_of(fragments).filter(
            |t: Seq<char>| survives(t),
        ),
        forall|g: int|
            0 <= g < grouped(stop, fragments, Some(0i32)).len() ==> (#[trigger] grouped(
                stop,
                fragments,
                Some(0i32),
            )[g]).len() > 0,
{
    let tokens = tokens_of(fragments);
    law_paragraphs_keep_document_order(tokens, 0);
    lemma_group_scan(tokens, 0, tokens.len());
    assert(grouped(stop, fragments, Some(0i32)) =~= paragraphs_of(tokens, 0));
}

/// Some words joined by spaces make a text that is not blank.
proof fn lemma_joined_words_not_blank(words: Seq<Seq<char>>)
    requires
        words.len() > 0,
        forall|k: int| 0 <= k < words.len() ==> is_word(#[trigger] words[k]),
    ensures
        joined_with_spaces(words).len() > 0,
        joined_with_spaces(words)[0] == words[0][0],
    decreases words.len(),
{
    if words.len() > 1 {
        let front = words.drop_last();
        assert forall|k: int| 0 <= k < front.len() implies is_word(#[trigger] front[k]) by {
            assert(front[k] == words[k]);
        }
        lemma_joined_words_not_blank(front);
    }
}

/// No cleaned sentence that is kept is blank.
pub proof fn lemma_applied_keeps_text(stop: Regex, sentences: Seq<Seq<char>>)
    ensures
        forall|k: int|
            0 <= k < applied(stop, sentences).len() ==> !is_blank(
                #[trigger] applied(stop, sentences)[k],
            ),
    decreases sentences.len(),
{
    if sentences.len() > 0 {
        let front = applied(stop, sentences.drop_last());
        lemma_applied_keeps_text(stop, sentences.drop_last());
        let text = cleaned(stop, sentences.last());
        if worth_keeping(text, lowercase_of(text)) {
            let words = words_of(matches_removed(stop, sentences.last()));
            lemma_words_are_words(matches_removed(stop, sentences.last()));
            assert(text.len() > 0);
            lemma_joined_words_not_blank(words);
            assert(!is_white_space(words[0][0]));
            assert(!is_blank(text));
        }
        assert forall|k: int| 0 <= k < applied(stop, sentences).len() implies !is_blank(
            #[trigger] applied(stop, sentences)[k],
        ) by {
            if k < front.len() {
                assert(applied(stop, sentences)[k] == front[k]);
            }
        }
    }
}

/// Nothing that is given out is empty after trimming: whatever the
/// fragments, the threshold and the stop words, every element of every group
/// holds a character that is no white space.
pub proof fn law_no_unit_is_blank(
    stop: Option<Regex>,
    fragments: Seq<Seq<char>>,
    explicit: Option<i32>,
)
    ensures
        forall|g: int, k: int|
            0 <= g < grouped(stop, fragments, explicit).len() && 0 <= k < grouped(
                stop,
                fragments,
                explicit,
            )[g].len() ==> trimmed(#[trigger] grouped(stop, fragments, explicit)[g][k]).len() > 0,
{
    let tokens = tokens_of(fragments);
    let threshold = threshold_in_force(tokens, explicit);
    let re = dot_word_regex();
    let paragraphs = paragraphs_of(tokens, threshold);
    let groups = grouped(stop, fragments, explicit);
    lemma_group_scan(tokens, threshold, tokens.len());
    assert forall|g: int, k: int| 0 <= g < groups.len() && 0 <= k < groups[g].len() implies trimmed(
        #[trigger] groups[g][k],
    ).len() > 0 by {
        let unit = groups[g][k];
        assert(groups[g] == emitted(re, stop, threshold, paragraphs[g]));
        lemma_blank_iff_trimmed_empty(unit);
        if threshold == 0 {
            assert(survives(paragraphs[g][k]));
        } else {
            let units = regrouped(re, paragraphs[g]);
            match stop {
                Some(expression) => {
                    lemma_applied_keeps_text(expression, units);
                },
                None => {
                    lemma_regrouped_gives_units(re, paragraphs[g]);
                    assert(is_unit(units[k]));
                },
            }
        }
    }
}

/// No delimiter starts in `s` from `i` on.
pub open spec fn no_delimiter_from(s: Seq<char>, i: int) -> bool {
    forall|j: int| i <= j < s.len() ==> delimiter_len(s, j) == 0
}

/// Where no delimiter starts from `i` on, what is left is one part.
proof fn lemma_parts_without_delimiter(s: Seq<char>, i: int, open: Seq<char>)
    requires
        0 <= i <= s.len(),
        no_delimiter_from(s, i),
    ensures
        parts_from(s, i, open) == seq![open + s.skip(i)],
    decreases s.len() - i,
{
    if i >= s.len() {
        assert(open + s.skip(i) =~= open);
    } else {
        assert(delimiter_len(s, i) == 0);
        lemma_parts_without_delimiter(s, i + 1, open.push(s[i]));
        assert(open.push(s[i]) + s.skip(i + 1) =~= open + s.skip(i));
    }
}

/// A text in which no delimiter starts, and which is not blank, is one unit:
/// the text, trimmed.
pub proof fn law_text_without_delimiter_is_one_unit(s: Seq<char>)
    requires
        no_delimiter_from(s, 0),
        !is_blank(s),
    ensures
        split_with(s, None) == seq![trimmed(s)],
{
    lemma_parts_without_delimiter(s, 0, Seq::empty());
    assert(Seq::<char>::empty() + s.skip(0) =~= s);
    let parts = parts_of(s);
    assert(parts == seq![s]);
    assert(parts.drop_last() =~= Seq::<Seq<char>>::empty());
    assert(kept_units(parts.drop_last()) =~= Seq::<Seq<char>>::empty());
    assert(kept_units(parts) =~= seq![trimmed(s)]);
}

/// A text that holds neither a vertical bar nor a hyphen, and is not blank,
/// is split into exactly one unit, the text trimmed; and that unit, which
/// holds no delimiter either, is split into itself.
pub proof fn law_splitting_is_idempotent(s: Seq<char>)
    requires
        forall|i: int| 0 <= i < s.len() ==> s[i] != '|' && s[i] != '-',
        !is_blank(s),
    ensures
        split_with(s, None) == seq![trimmed(s)],
        split_with(trimmed(s), None) == seq![trimmed(s)],
{
    law_text_without_delimiter_is_one_unit(s);
    let t = trimmed(s);
    crate::text::lemma_trimmed_keeps_text(s);
    lemma_trimmed_is_a_run(s);
    let a = choose|a: int| stands_at(s, t, a);
    assert forall|j: int| 0 <= j < t.len() implies delimiter_len(t, j) == 0 by {
        assert(t[j] == s[a + j]);
        if j + 1 < t.len() {
            assert(t[j + 1] == s[a + j + 1]);
        }
    }
    lemma_blank_iff_trimmed_empty(t);
    law_text_without_delimiter_is_one_unit(t);
}

/// What is left after trimming stands in the text as it is.
proof fn lemma_trimmed_is_a_run(s: Seq<char>)
    ensures
        exists|a: int| stands_at(s, trimmed(s), a),
{
    lemma_trimmed_start_is_a_tail(s);
    let front = crate::text::trimmed_start(s);
    let a = s.len() - front.len();
    lemma_trimmed_end_is_a_head(front);
    let t = trimmed(s);
    assert(t =~= s.subrange(a, a + t.len()));
    assert(stands_at(s, t, a));
}

/// What is left after trimming the start is the end of the text.
proof fn lemma_trimmed_start_is_a_tail(s: Seq<char>)
    ensures
        crate::text::trimmed_start(s).len() <= s.len(),
        crate::text::trimmed_start(s) == s.skip(s.len() - crate::text::trimmed_start(s).len()),
    decreases s.len(),
{
    if s.len() > 0 && is_white_space(s.first()) {
        lemma_trimmed_start_is_a_tail(s.drop_first());
        let t = crate::text::trimmed_start(s);
        assert(t =~= s.skip(s.len() - t.len()));
    } else {
        assert(s.skip(0) =~= s);
    }
}

/// What is left after trimming the end is the start of the text.
proof fn lemma_trimmed_end_is_a_head(s: Seq<char>)
    ensures
        crate::text::trimmed_end(s).len() <= s.len(),
        crate::text::trimmed_end(s) == s.take(crate::text::trimmed_end(s).len() as int),
    decreases s.len(),
{
    if s.len() > 0 && is_white_space(s.last()) {
        lemma_trimmed_end_is_a_head(s.drop_last());
        let t = crate::text::trimmed_end(s);
        assert(t =~= s.take(t.len() as int));
    } else {
        assert(s.take(s.len() as int) =~= s);
    }
}

/// `result` is what the grouping gives for the fragments, the threshold and
/// the stop words.
pub open spec fn is_grouping_of(
    result: Option<Vec<Vec<String>>>,
    stop: Option<Regex>,
    fragments: Seq<Seq<char>>,
    explicit: Option<i32>,
) -> bool {
    &&& result is None <==> fragments.len() == 0
    &&& result is Some ==> groups_of(result->Some_0@) == grouped(stop, fragments, explicit)
}

/// The grouping is a function of its input: two results for the same
/// fragments, threshold and stop words hold the same groups of the same texts.
pub proof fn law_same_input_same_groups(
    first: Option<Vec<Vec<String>>>,
    second: Option<Vec<Vec<String>>>,
    stop: Option<Regex>,
    fragments: Seq<Seq<char>>,
    explicit: Option<i32>,
)
    requires
        is_grouping_of(first, stop, fragments, explicit),
        is_grouping_of(second, stop, fragments, explicit),
    ensures
        first is Some <==> second is Some,
        first is Some ==> groups_of(first->Some_0@) == groups_of(second->Some_0@),
{
}

/// A character that is neither white space nor part of any delimiter.
pub open spec fn is_solid(c: char) -> bool {
    !is_white_space(c) && c != '|' && c != '-'
}

/// The text holds a solid character.
pub open spec fn has_solid(s: Seq<char>) -> bool {
    exists|i: int| 0 <= i < s.len() && is_solid(#[trigger] s[i])
}

/// One of the texts holds a solid character.
pub open spec fn holds_solid(texts: Seq<Seq<char>>) -> bool {
    exists|k: int| 0 <= k < texts.len() && has_solid(#[trigger] texts[k])
}

/// The units of parts put together are the units of each, put together.
proof fn lemma_kept_units_of_concat(a: Seq<Seq<char>>, b: Seq<Seq<char>>)
    ensures
        kept_units(a + b) == kept_units(a) + kept_units(b),
    decreases b.len(),
{
    if b.len() == 0 {
        assert(a + b =~= a);
        assert(kept_units(a) + kept_units(b) =~= kept_units(a));
    } else {
        assert((a + b).drop_last() =~= a + b.drop_last());
        assert((a + b).last() == b.last());
        lemma_kept_units_of_concat(a, b.drop_last());
        if is_blank(b.last()) {
        } else {
            assert(kept_units(a + b) =~= kept_units(a) + kept_units(b));
        }
    }
}

/// One part that is not blank gives one unit.
proof fn lemma_one_part_with_text(open: Seq<char>)
    requires
        !is_blank(open),
    ensures
        kept_units(seq![open]).len() == 1,
{
    let parts = seq![open];
    assert(parts.drop_last() =~= Seq::<Seq<char>>::empty());
    assert(kept_units(parts.drop_last()).len() == 0);
}

/// A part that is being read and is not blank, or a solid character still to
/// be read at `j`, gives a unit.
proof fn lemma_solid_text_gives_a_unit_from(s: Seq<char>, i: int, open: Seq<char>, j: int)
    requires
        0 <= i <= s.len(),
        !is_blank(open) || (i <= j < s.len() && is_solid(s[j])),
    ensures
        kept_units(parts_from(s, i, open)).len() > 0,
    decreases s.len() - i,
{
    if i >= s.len() {
        lemma_one_part_with_text(open);
    } else if delimiter_len(s, i) > 0 {
        let d = delimiter_len(s, i) as int;
        let rest = parts_from(s, i + d, Seq::empty());
        lemma_kept_units_of_concat(seq![open], rest);
        if !is_blank(open) {
            lemma_one_part_with_text(open);
        } else {
            assert(j != i);
            if d == 2 {
                assert(j != i + 1);
            }
            lemma_solid_text_gives_a_unit_from(s, i + d, Seq::empty(), j);
        }
    } else {
        let next = open.push(s[i]);
        if !is_blank(open) {
            let w = choose|w: int| 0 <= w < open.len() && !is_white_space(open[w]);
            assert(next[w] == open[w]);
            assert(!is_blank(next));
        } else if j == i {
            assert(next[open.len() as int] == s[i]);
            assert(!is_blank(next));
        }
        lemma_solid_text_gives_a_unit_from(s, i + 1, next, j);
    }
}

/// A text that holds a solid character gives a unit.
pub proof fn lemma_solid_text_gives_a_unit(s: Seq<char>)
    requires
        has_solid(s),
    ensures
        units_of(s).len() > 0,
{
    let j = choose|j: int| 0 <= j < s.len() && is_solid(#[trigger] s[j]);
    lemma_solid_text_gives_a_unit_from(s, 0, Seq::empty(), j);
}

/// A solid character of one of the parts stands in the parts joined.
proof fn lemma_joined_keeps_solid(parts: Seq<Seq<char>>, k: int)
    requires
        0 <= k < parts.len(),
        has_solid(parts[k]),
    ensures
        has_solid(joined_with_spaces(parts)),
    decreases parts.len(),
{
    let joined = joined_with_spaces(parts);
    if parts.len() == 1 {
    } else if k == parts.len() - 1 {
        let front = joined_with_spaces(parts.drop_last()).push(' ');
        let i = choose|i: int| 0 <= i < parts[k].len() && is_solid(#[trigger] parts[k][i]);
        assert(joined[front.len() + i] == parts[k][i]);
    } else {
        assert(parts.drop_last()[k] == parts[k]);
        lemma_joined_keeps_solid(parts.drop_last(), k);
        let front = joined_with_spaces(parts.drop_last());
        let i = choose|i: int| 0 <= i < front.len() && is_solid(#[trigger] front[i]);
        assert(joined[i] == front[i]);
    }
}

/// Some word that is complete, or the open word, holds a solid character.
spec fn scan_holds_solid(scan: crate::text::WordScan) -> bool {
    holds_solid(scan.done) || has_solid(scan.open)
}

/// Closing the open word loses no solid character.
proof fn lemma_closed_words_keep_solid(scan: crate::text::WordScan)
    requires
        scan_holds_solid(scan),
    ensures
        holds_solid(crate::text::closed_words(scan)),
{
    let closed = crate::text::closed_words(scan);
    if holds_solid(scan.done) {
        let k = choose|k: int| 0 <= k < scan.done.len() && has_solid(#[trigger] scan.done[k]);
        assert(closed[k] == scan.done[k]);
    } else {
        assert(scan.open.len() > 0);
        assert(closed[scan.done.len() as int] == scan.open);
    }
}

/// A solid character that was read stands in a word of the scan.
proof fn lemma_word_scan_keeps_solid(s: Seq<char>, n: nat, j: int)
    requires
        n <= s.len(),
        0 <= j < n,
        is_solid(s[j]),
    ensures
        scan_holds_solid(crate::text::word_scan(s, n)),
    decreases n,
{
    let after = crate::text::word_scan(s, n);
    let before = crate::text::word_scan(s, (n - 1) as nat);
    let c = s[n - 1];
    if is_white_space(c) {
        lemma_word_scan_keeps_solid(s, (n - 1) as nat, j);
        lemma_closed_words_keep_solid(before);
    } else if j == n - 1 {
        assert(after.open[before.open.len() as int] == c);
    } else {
        lemma_word_scan_keeps_solid(s, (n - 1) as nat, j);
        if has_solid(before.open) {
            let i = choose|i: int| 0 <= i < before.open.len() && is_solid(#[trigger] before.open[i]);
            assert(after.open[i] == before.open[i]);
        }
    }
}

/// A solid character of one of the words stands in the words glued.
proof fn lemma_glued_keeps_solid(re: Option<Regex>, words: Seq<Seq<char>>, k: int)
    requires
        0 <= k < words.len(),
        has_solid(words[k]),
    ensures
        has_solid(glued(re, words)),
    decreases words.len(),
{
    let text = glued(re, words);
    if words.len() == 1 {
    } else {
        let front = glued(re, words.drop_last());
        let head = if closes_gap(re, words[words.len() - 2], words.last()) {
            front
        } else {
            front.push(' ')
        };
        assert(text == head + words.last());
        if k == words.len() - 1 {
            let i = choose|i: int| 0 <= i < words[k].len() && is_solid(#[trigger] words[k][i]);
            assert(text[head.len() + i] == words[k][i]);
        } else {
            assert(words.drop_last()[k] == words[k]);
            lemma_glued_keeps_solid(re, words.drop_last(), k);
            let i = choose|i: int| 0 <= i < front.len() && is_solid(#[trigger] front[i]);
            assert(text[i] == front[i]);
        }
    }
}

/// A chain with a solid character gives a unit.
pub proof fn lemma_solid_chain_gives_a_unit(re: Option<Regex>, chain: Seq<Seq<char>>)
    requires
        holds_solid(chain),
    ensures
        units_of(joined_chain(re, chain)).len() > 0,
{
    let k = choose|k: int| 0 <= k < chain.len() && has_solid(#[trigger] chain[k]);
    lemma_joined_keeps_solid(chain, k);
    let joined = joined_with_spaces(chain);
    let j = choose|j: int| 0 <= j < joined.len() && is_solid(#[trigger] joined[j]);
    lemma_word_scan_keeps_solid(joined, joined.len(), j);
    lemma_closed_words_keep_solid(crate::text::word_scan(joined, joined.len()));
    let words = words_of(joined);
    let w = choose|w: int| 0 <= w < words.len() && has_solid(#[trigger] words[w]);
    lemma_glued_keeps_solid(re, words, w);
    lemma_solid_text_gives_a_unit(joined_chain(re, chain));
}

/// A line with a solid character that was walked stands in a chain.
proof fn lemma_chain_scan_keeps_solid(lines: Seq<Seq<char>>, n: nat, j: int)
    requires
        n <= lines.len(),
        0 <= j < n,
        has_solid(lines[j]),
    ensures
        (exists|c: int|
            0 <= c < chain_scan(lines, n).done.len() && holds_solid(
                #[trigger] chain_scan(lines, n).done[c],
            )) || holds_solid(chain_scan(lines, n).open),
    decreases n,
{
    let after = chain_scan(lines, n);
    let before = chain_scan(lines, (n - 1) as nat);
    let joins = n == 1 || lines_tied(lines[n - 2], lines[n - 1]);
    if j == n - 1 {
        assert(after.open[after.open.len() - 1] == lines[j]);
    } else {
        lemma_chain_scan_keeps_solid(lines, (n - 1) as nat, j);
        if holds_solid(before.open) {
            if joins {
                let k = choose|k: int|
                    0 <= k < before.open.len() && has_solid(#[trigger] before.open[k]);
                assert(after.open[k] == before.open[k]);
            } else {
                assert(after.done[before.done.len() as int] == before.open);
            }
        } else {
            let c = choose|c: int|
                0 <= c < before.done.len() && holds_solid(#[trigger] before.done[c]);
            assert(after.done[c] == before.done[c]);
        }
    }
}

/// Chains of which one holds a solid character give a unit.
proof fn lemma_units_of_chains_with_solid(re: Option<Regex>, chains: Seq<Seq<Seq<char>>>, c: int)
    requires
        0 <= c < chains.len(),
        holds_solid(chains[c]),
    ensures
        units_of_chains(re, chains).len() > 0,
    decreases chains.len(),
{
    if c == chains.len() - 1 {
        lemma_solid_chain_gives_a_unit(re, chains[c]);
    } else {
        assert(chains.drop_last()[c] == chains[c]);
        lemma_units_of_chains_with_solid(re, chains.drop_last(), c);
    }
}

/// A paragraph that holds a solid character, one that is neither white space
/// nor a vertical bar nor a hyphen, gives a unit.
pub proof fn law_paragraph_with_solid_text_gives_a_unit(re: Option<Regex>, lines: Seq<Seq<char>>)
    requires
        holds_solid(lines),
    ensures
        regrouped(re, lines).len() > 0,
{
    let j = choose|j: int| 0 <= j < lines.len() && has_solid(#[trigger] lines[j]);
    if lines.len() == 1 {
        lemma_solid_text_gives_a_unit(lines[0]);
    } else {
        lemma_chain_scan_keeps_solid(lines, lines.len(), j);
        let scan = chain_scan(lines, lines.len());
        let chains = chains_of(lines);
        if holds_solid(scan.open) {
            assert(chains[scan.done.len() as int] == scan.open);
            lemma_units_of_chains_with_solid(re, chains, scan.done.len() as int);
        } else {
            let c = choose|c: int| 0 <= c < scan.done.len() && holds_solid(#[trigger] scan.done[c]);
            assert(chains[c] == scan.done[c]);
            lemma_units_of_chains_with_solid(re, chains, c);
        }
    }
}

/// No group is empty that comes from a paragraph with a solid character,
/// where no stop words are removed; and with the threshold 0 no group is
/// empty at all.
pub proof fn law_groups_with_solid_text_are_not_empty(
    fragments: Seq<Seq<char>>,
    explicit: Option<i32>,
)
    ensures
        grouped(None, fragments, explicit).len() == paragraphs_of(
            tokens_of(fragments),
            threshold_in_force(tokens_of(fragments), explicit),
        ).len(),
        forall|g: int|
            0 <= g < grouped(None, fragments, explicit).len() && (threshold_in_force(
                tokens_of(fragments),
                explicit,
            ) == 0 || holds_solid(
                paragraphs_of(
                    tokens_of(fragments),
                    threshold_in_force(tokens_of(fragments), explicit),
                )[g],
            )) ==> (#[trigger] grouped(None, fragments, explicit)[g]).len() > 0,
{
    let tokens = tokens_of(fragments);
    let threshold = threshold_in_force(tokens, explicit);
    let re = dot_word_regex();
    let paragraphs = paragraphs_of(tokens, threshold);
    let groups = grouped(None, fragments, explicit);
    lemma_group_scan(tokens, threshold, tokens.len());
    assert forall|g: int|
        0 <= g < groups.len() && (threshold == 0 || holds_solid(paragraphs[g])) implies (
    #[trigger] groups[g]).len() > 0 by {
        assert(groups[g] == emitted(re, None, threshold, paragraphs[g]));
        if threshold != 0 {
            law_paragraph_with_solid_text_gives_a_unit(re, paragraphs[g]);
        }
    }
}

/// The solid characters of a text, in their order.
pub open spec fn solid_of(s: Seq<char>) -> Seq<char>
    decreases s.len(),
{
    if s.len() == 0 {
        Seq::empty()
    } else if is_solid(s.last()) {
        solid_of(s.drop_last()).push(s.last())
    } else {
        solid_of(s.drop_last())
    }
}

/// The solid characters of some texts, read one text after the other.
pub open spec fn solid_of_all(texts: Seq<Seq<char>>) -> Seq<char> {
    solid_of(texts.flatten())
}

/// The solid characters of two texts put together are those of each, put
/// together.
proof fn lemma_solid_of_concat(a: Seq<char>, b: Seq<char>)
    ensures
        solid_of(a + b) == solid_of(a) + solid_of(b),
    decreases b.len(),
{
    if b.len() == 0 {
        assert(a + b =~= a);
        assert(solid_of(a) + solid_of(b) =~= solid_of(a));
    } else {
        assert((a + b).drop_last() =~= a + b.drop_last());
        assert((a + b).last() == b.last());
        lemma_solid_of_concat(a, b.drop_last());
        assert(solid_of(a + b) =~= solid_of(a) + solid_of(b));
    }
}

/// The solid characters of a text of one character.
proof fn lemma_solid_of_one(c: char)
    ensures
        solid_of(seq![c]) == if is_solid(c) {
            seq![c]
        } else {
            Seq::<char>::empty()
        },
{
    assert(seq![c].drop_last() =~= Seq::<char>::empty());
    assert(solid_of(seq![c].drop_last()) =~= Seq::<char>::empty());
    if is_solid(c) {
        assert(solid_of(seq![c]) =~= seq![c]);
    }
}

/// The solid characters of two runs of texts put together are those of each,
/// put together.
proof fn lemma_solid_of_all_concat(a: Seq<Seq<char>>, b: Seq<Seq<char>>)
    ensures
        solid_of_all(a + b) == solid_of_all(a) + solid_of_all(b),
{
    vstd::seq_lib::lemma_flatten_concat(a, b);
    lemma_solid_of_concat(a.flatten(), b.flatten());
}

/// The solid characters of a run of one text are those of the text.
proof fn lemma_solid_of_all_one(text: Seq<char>)
    ensures
        solid_of_all(seq![text]) == solid_of(text),
{
    broadcast use vstd::seq::Seq::lemma_flatten_singleton;

    assert(seq![text].flatten() == text);
}

/// A blank text holds no solid character.
proof fn lemma_blank_has_no_solid(s: Seq<char>)
    requires
        is_blank(s),
    ensures
        solid_of(s) == Seq::<char>::empty(),
    decreases s.len(),
{
    if s.len() > 0 {
        assert(is_white_space(s[s.len() - 1]));
        assert forall|i: int| 0 <= i < s.drop_last().len() implies is_white_space(
            #[trigger] s.drop_last()[i],
        ) by {
            assert(s.drop_last()[i] == s[i]);
        }
        lemma_blank_has_no_solid(s.drop_last());
    }
}

/// Trimming the start loses no solid character.
proof fn lemma_trimmed_start_keeps_solid(s: Seq<char>)
    ensures
        solid_of(crate::text::trimmed_start(s)) == solid_of(s),
    decreases s.len(),
{
    if s.len() > 0 && is_white_space(s.first()) {
        lemma_trimmed_start_keeps_solid(s.drop_first());
        assert(s =~= seq![s.first()] + s.drop_first());
        lemma_solid_of_concat(seq![s.first()], s.drop_first());
        lemma_solid_of_one(s.first());
        assert(solid_of(seq![s.first()]) + solid_of(s.drop_first()) =~= solid_of(s.drop_first()));
    }
}

/// Trimming the end loses no solid character.
proof fn lemma_trimmed_end_keeps_solid(s: Seq<char>)
    ensures
        solid_of(crate::text::trimmed_end(s)) == solid_of(s),
    decreases s.len(),
{
    if s.len() > 0 && is_white_space(s.last()) {
        lemma_trimmed_end_keeps_solid(s.drop_last());
    }
}

/// The units hold the solid characters of the parts.
proof fn lemma_kept_units_keep_solid(parts: Seq<Seq<char>>)
    ensures
        solid_of_all(kept_units(parts)) == solid_of_all(parts),
    decreases parts.len(),
{
    if parts.len() == 0 {
    } else {
        let front = parts.drop_last();
        let last = parts.last();
        lemma_kept_units_keep_solid(front);
        assert(parts =~= front + seq![last]);
        lemma_solid_of_all_concat(front, seq![last]);
        lemma_solid_of_all_one(last);
        if is_blank(last) {
            lemma_blank_has_no_solid(last);
            assert(solid_of_all(front) + solid_of(last) =~= solid_of_all(front));
        } else {
            let unit = trimmed(last);
            lemma_trimmed_start_keeps_solid(last);
            lemma_trimmed_end_keeps_solid(crate::text::trimmed_start(last));
            assert(kept_units(parts) =~= kept_units(front) + seq![unit]);
            lemma_solid_of_all_concat(kept_units(front), seq![unit]);
            lemma_solid_of_all_one(unit);
        }
    }
}

/// The parts from `i` on hold the solid characters of the open part and of
/// the text from `i` on.
proof fn lemma_parts_keep_solid(s: Seq<char>, i: int, open: Seq<char>)
    requires
        0 <= i <= s.len(),
    ensures
        solid_of_all(parts_from(s, i, open)) == solid_of(open) + solid_of(s.skip(i)),
    decreases s.len() - i,
{
    let rest = s.skip(i);
    if i >= s.len() {
        lemma_solid_of_all_one(open);
        assert(rest =~= Seq::<char>::empty());
        assert(solid_of(open) + solid_of(rest) =~= solid_of(open));
    } else if delimiter_len(s, i) > 0 {
        let d = delimiter_len(s, i) as int;
        let tail = parts_from(s, i + d, Seq::empty());
        lemma_parts_keep_solid(s, i + d, Seq::empty());
        lemma_solid_of_all_concat(seq![open], tail);
        lemma_solid_of_all_one(open);
        assert(rest =~= s.subrange(i, i + d) + s.skip(i + d));
        lemma_solid_of_concat(s.subrange(i, i + d), s.skip(i + d));
        let cut = s.subrange(i, i + d);
        assert forall|k: int| 0 <= k < cut.len() implies !is_solid(#[trigger] cut[k]) by {
            assert(cut[k] == s[i + k]);
        }
        lemma_no_solid_char(cut);
        assert(solid_of(Seq::<char>::empty()) + solid_of(s.skip(i + d)) =~= solid_of(
            s.skip(i + d),
        ));
        assert(solid_of(cut) + solid_of(s.skip(i + d)) =~= solid_of(s.skip(i + d)));
    } else {
        lemma_parts_keep_solid(s, i + 1, open.push(s[i]));
        assert(open.push(s[i]) =~= open + seq![s[i]]);
        lemma_solid_of_concat(open, seq![s[i]]);
        assert(rest =~= seq![s[i]] + s.skip(i + 1));
        lemma_solid_of_concat(seq![s[i]], s.skip(i + 1));
        assert((solid_of(open) + solid_of(seq![s[i]])) + solid_of(s.skip(i + 1)) =~= solid_of(open)
            + (solid_of(seq![s[i]]) + solid_of(s.skip(i + 1))));
    }
}

/// A text of characters that are not solid has no solid characters.
proof fn lemma_no_solid_char(s: Seq<char>)
    requires
        forall|k: int| 0 <= k < s.len() ==> !is_solid(#[trigger] s[k]),
    ensures
        solid_of(s) == Seq::<char>::empty(),
    decreases s.len(),
{
    if s.len() > 0 {
        assert(!is_solid(s[s.len() - 1]));
        assert forall|k: int| 0 <= k < s.drop_last().len() implies !is_solid(
            #[trigger] s.drop_last()[k],
        ) by {
            assert(s.drop_last()[k] == s[k]);
        }
        lemma_no_solid_char(s.drop_last());
    }
}

/// The units of a text hold its solid characters, in their order.
pub proof fn lemma_units_keep_solid(s: Seq<char>)
    ensures
        solid_of_all(units_of(s)) == solid_of(s),
{
    lemma_kept_units_keep_solid(parts_of(s));
    lemma_parts_keep_solid(s, 0, Seq::empty());
    assert(s.skip(0) =~= s);
    assert(solid_of(Seq::<char>::empty()) + solid_of(s) =~= solid_of(s));
}

/// The words of the scan hold the solid characters read.
proof fn lemma_word_scan_keeps_solid_chars(s: Seq<char>, n: nat)
    requires
        n <= s.len(),
    ensures
        solid_of_all(crate::text::word_scan(s, n).done) + solid_of(
            crate::text::word_scan(s, n).open,
        ) == solid_of(s.take(n as int)),
    decreases n,
{
    let after = crate::text::word_scan(s, n);
    if n == 0 {
        assert(s.take(0) =~= Seq::<char>::empty());
        assert(solid_of_all(after.done) + solid_of(after.open) =~= Seq::<char>::empty());
    } else {
        let before = crate::text::word_scan(s, (n - 1) as nat);
        lemma_word_scan_keeps_solid_chars(s, (n - 1) as nat);
        let c = s[n - 1];
        assert(s.take(n as int) =~= s.take(n - 1) + seq![c]);
        lemma_solid_of_concat(s.take(n - 1), seq![c]);
        lemma_solid_of_one(c);
        if is_white_space(c) {
            lemma_closed_words_keep_solid_chars(before);
            assert(solid_of_all(after.done) + solid_of(after.open) =~= solid_of_all(after.done));
            assert(solid_of(s.take(n - 1)) + solid_of(seq![c]) =~= solid_of(s.take(n - 1)));
        } else {
            assert(after.open =~= before.open + seq![c]);
            lemma_solid_of_concat(before.open, seq![c]);
            assert(solid_of_all(before.done) + (solid_of(before.open) + solid_of(seq![c]))
                =~= (solid_of_all(before.done) + solid_of(before.open)) + solid_of(seq![c]));
        }
    }
}

/// Closing the open word keeps the solid characters.
proof fn lemma_closed_words_keep_solid_chars(scan: crate::text::WordScan)
    ensures
        solid_of_all(crate::text::closed_words(scan)) == solid_of_all(scan.done) + solid_of(
            scan.open,
        ),
{
    if scan.open.len() > 0 {
        assert(scan.done.push(scan.open) =~= scan.done + seq![scan.open]);
        lemma_solid_of_all_concat(scan.done, seq![scan.open]);
        lemma_solid_of_all_one(scan.open);
    } else {
        assert(solid_of_all(scan.done) + solid_of(scan.open) =~= solid_of_all(scan.done));
    }
}

/// The parts joined hold the solid characters of the parts.
proof fn lemma_joined_keeps_solid_chars(parts: Seq<Seq<char>>)
    ensures
        solid_of(joined_with_spaces(parts)) == solid_of_all(parts),
    decreases parts.len(),
{
    if parts.len() == 0 {
    } else if parts.len() == 1 {
        assert(parts =~= seq![parts[0]]);
        lemma_solid_of_all_one(parts[0]);
    } else {
        let front = parts.drop_last();
        lemma_joined_keeps_solid_chars(front);
        let head = joined_with_spaces(front);
        assert(head.push(' ') =~= head + seq![' ']);
        lemma_solid_of_concat(head, seq![' ']);
        lemma_solid_of_one(' ');
        assert(solid_of(head) + solid_of(seq![' ']) =~= solid_of(head));
        lemma_solid_of_concat(head.push(' '), parts.last());
        assert(parts =~= front + seq![parts.last()]);
        lemma_solid_of_all_concat(front, seq![parts.last()]);
        lemma_solid_of_all_one(parts.last());
    }
}

/// The words glued hold the solid characters of the words.
proof fn lemma_glued_keeps_solid_chars(re: Option<Regex>, words: Seq<Seq<char>>)
    ensures
        solid_of(glued(re, words)) == solid_of_all(words),
    decreases words.len(),
{
    if words.len() == 0 {
    } else if words.len() == 1 {
        assert(words =~= seq![words[0]]);
        lemma_solid_of_all_one(words[0]);
    } else {
        let front = words.drop_last();
        lemma_glued_keeps_solid_chars(re, front);
        let head = glued(re, front);
        assert(head.push(' ') =~= head + seq![' ']);
        lemma_solid_of_concat(head, seq![' ']);
        lemma_solid_of_one(' ');
        assert(solid_of(head) + solid_of(seq![' ']) =~= solid_of(head));
        lemma_solid_of_concat(head.push(' '), words.last());
        lemma_solid_of_concat(head, words.last());
        assert(words =~= front + seq![words.last()]);
        lemma_solid_of_all_concat(front, seq![words.last()]);
        lemma_solid_of_all_one(words.last());
    }
}

/// The text of a chain holds the solid characters of its lines, in their order.
pub proof fn lemma_joined_chain_keeps_solid(re: Option<Regex>, chain: Seq<Seq<char>>)
    ensures
        solid_of(joined_chain(re, chain)) == solid_of_all(chain),
{
    let joined = joined_with_spaces(chain);
    lemma_joined_keeps_solid_chars(chain);
    lemma_word_scan_keeps_solid_chars(joined, joined.len());
    lemma_closed_words_keep_solid_chars(crate::text::word_scan(joined, joined.len()));
    assert(joined.take(joined.len() as int) =~= joined);
    lemma_glued_keeps_solid_chars(re, words_of(joined));
}

/// The units of some chains hold the solid characters of their lines.
proof fn lemma_units_of_chains_keep_solid(re: Option<Regex>, chains: Seq<Seq<Seq<char>>>)
    ensures
        solid_of_all(units_of_chains(re, chains)) == solid_of_all(chains.flatten()),
    decreases chains.len(),
{
    broadcast use vstd::seq::Seq::lemma_flatten_push;

    if chains.len() == 0 {
        assert(chains.flatten() =~= Seq::<Seq<char>>::empty());
    } else {
        let front = chains.drop_last();
        let last = chains.last();
        lemma_units_of_chains_keep_solid(re, front);
        lemma_solid_of_all_concat(
            units_of_chains(re, front),
            units_of(joined_chain(re, last)),
        );
        lemma_units_keep_solid(joined_chain(re, last));
        lemma_joined_chain_keeps_solid(re, last);
        assert(chains =~= front.push(last));
        assert(chains.flatten() =~= front.flatten() + last);
        lemma_solid_of_all_concat(front.flatten(), last);
    }
}

/// The units of a paragraph hold the solid characters of its lines, in their
/// order: none is lost, doubled or moved.
pub proof fn law_units_keep_the_solid_text(re: Option<Regex>, lines: Seq<Seq<char>>)
    ensures
        solid_of_all(regrouped(re, lines)) == solid_of_all(lines),
{
    if lines.len() == 1 {
        lemma_units_keep_solid(lines[0]);
        assert(lines =~= seq![lines[0]]);
        lemma_solid_of_all_one(lines[0]);
    } else {
        lemma_units_of_chains_keep_solid(re, chains_of(lines));
        crate::regroup::law_chains_keep_the_lines(lines);
    }
}

/// What is given out for some paragraphs holds the solid characters of
/// their lines, where no stop words are removed.
proof fn lemma_emitted_keep_solid(
    re: Option<Regex>,
    threshold: int,
    groups: Seq<Seq<Seq<char>>>,
)
    ensures
        solid_of_all(crate::grouper::emitted_all(re, None, threshold, groups).flatten())
            == solid_of_all(groups.flatten()),
    decreases groups.len(),
{
    broadcast use vstd::seq::Seq::lemma_flatten_push;

    let given = crate::grouper::emitted_all(re, None, threshold, groups);
    if groups.len() == 0 {
        assert(given.flatten() =~= Seq::<Seq<char>>::empty());
        assert(groups.flatten() =~= Seq::<Seq<char>>::empty());
    } else {
        let front = groups.drop_last();
        let last = groups.last();
        lemma_emitted_keep_solid(re, threshold, front);
        let given_front = crate::grouper::emitted_all(re, None, threshold, front);
        let given_last = emitted(re, None, threshold, last);
        assert(given =~= given_front.push(given_last));
        assert(groups =~= front.push(last));
        assert(given.flatten() =~= given_front.flatten() + given_last);
        assert(groups.flatten() =~= front.flatten() + last);
        lemma_solid_of_all_concat(given_front.flatten(), given_last);
        lemma_solid_of_all_concat(front.flatten(), last);
        if threshold != 0 {
            law_units_keep_the_solid_text(re, last);
        }
    }
}

/// Where no stop words are removed, what is given out holds the solid
/// characters of the lines that survive, in the order of the document: read
/// group by group and unit by unit, none is lost, doubled or moved.
pub proof fn law_solid_text_keeps_document_order(fragments: Seq<Seq<char>>, explicit: Option<i32>)
    ensures
        solid_of_all(grouped(None, fragments, explicit).flatten()) == solid_of_all(
            tokens_of(fragments).filter(|t: Seq<char>| survives(t)),
        ),
{
    let tokens = tokens_of(fragments);
    let threshold = threshold_in_force(tokens, explicit);
    law_paragraphs_keep_document_order(tokens, threshold);
    lemma_emitted_keep_solid(dot_word_regex(), threshold, paragraphs_of(tokens, threshold));
}

} // verus!
