//! The grouping of tokens into paragraphs, and the whole way from raw
//! fragments to the sentence-like units of each paragraph.

use vstd::prelude::*;
use regex::Regex;
use crate::cleanup::applied;
use crate::cleanup::apply;
use crate::joiner::dot_word_expression;
use crate::joiner::dot_word_regex;
use crate::regroup::no_line_empty;
use crate::regroup::regroup_lines;
use crate::regroup::regrouped;
use crate::text::is_blank;
use crate::text::lemma_blank_iff_trimmed_empty;
use crate::text::strings_of;
use crate::text::texts_of;
use crate::text::trim;
use crate::text::trimmed;
use crate::text::views_of;
use crate::threshold::estimate_threshold;
use crate::threshold::threshold_of;
use crate::tokens::is_break;
use crate::tokens::token_texts;
use crate::tokens::tokenize;
use crate::tokens::tokens_of;
use crate::tokens::Token;

verus! {

/// A line survives into a paragraph when it is not blank and, trimmed, does
/// not start with `<`, as markup that was left over does.
pub open spec fn survives(token: Seq<char>) -> bool {
    !is_blank(token) && trimmed(token).first() != '<'
}

/// The state of the grouping: the paragraphs that are complete, the lines
/// gathered for the next one, and the breaks seen since the last such line.
pub struct GroupScan {
    pub groups: Seq<Seq<Seq<char>>>,
    pub lines: Seq<Seq<char>>,
    pub run: nat,
}

/// The state after a token is read: a break lengthens the run; a line that
/// survives is gathered, as it stands, and ends the run; any other line
/// changes nothing.
pub open spec fn read_token(scan: GroupScan, token: Seq<char>) -> GroupScan {
    if is_break(token) {
        GroupScan { run: scan.run + 1, ..scan }
    } else if survives(token) {
        GroupScan { lines: scan.lines.push(token), run: 0, ..scan }
    } else {
        scan
    }
}

/// Where a paragraph is due and lines are gathered, they become a paragraph
/// and the run starts anew; nothing happens where no line is gathered.
pub open spec fn flush_if_due(scan: GroupScan, due: bool) -> GroupScan {
    if due && scan.lines.len() > 0 {
        GroupScan { groups: scan.groups.push(scan.lines), lines: Seq::empty(), run: 0 }
    } else {
        scan
    }
}

/// The state after the first `n` tokens. A paragraph is due when the run has
/// reached the threshold, and behind the last token.
pub open spec fn group_scan(tokens: Seq<Seq<char>>, threshold: int, n: nat) -> GroupScan
    decreases n,
{
    if n == 0 {
        GroupScan { groups: Seq::empty(), lines: Seq::empty(), run: 0 }
    } else {
        let read = read_token(group_scan(tokens, threshold, (n - 1) as nat), tokens[n - 1]);
        flush_if_due(read, read.run >= threshold || n == tokens.len())
    }
}

/// The paragraphs of the tokens, each as the lines gathered for it.
pub open spec fn paragraphs_of(tokens: Seq<Seq<char>>, threshold: int) -> Seq<Seq<Seq<char>>> {
    group_scan(tokens, threshold, tokens.len()).groups
}

/// The units, cleaned with the stop-word expression where there is one.
pub open spec fn finished(stop: Option<Regex>, units: Seq<Seq<char>>) -> Seq<Seq<char>> {
    match stop {
        Some(expression) => applied(expression, units),
        None => units,
    }
}

/// What is given out for a paragraph: with the threshold 0 its lines as they
/// stand, else its units.
pub open spec fn emitted(
    re: Option<Regex>,
    stop: Option<Regex>,
    threshold: int,
    lines: Seq<Seq<char>>,
) -> Seq<Seq<char>> {
    if threshold == 0 {
        lines
    } else {
        finished(stop, regrouped(re, lines))
    }
}

/// What is given out for each of the paragraphs.
pub open spec fn emitted_all(
    re: Option<Regex>,
    stop: Option<Regex>,
    threshold: int,
    groups: Seq<Seq<Seq<char>>>,
) -> Seq<Seq<Seq<char>>> {
    Seq::new(groups.len(), |i: int| emitted(re, stop, threshold, groups[i]))
}

/// The threshold in force: the explicit one where it is given, else the one
/// estimated from the tokens.
pub open spec fn threshold_in_force(tokens: Seq<Seq<char>>, explicit: Option<i32>) -> int {
    match explicit {
        Some(t) => t as int,
        None => threshold_of(tokens) as int,
    }
}

/// The groups that the fragments give: the fragments are cut into tokens, the
/// tokens are gathered in paragraphs, and for each paragraph its lines or
/// units are given out.
pub open spec fn grouped(
    stop: Option<Regex>,
    fragments: Seq<Seq<char>>,
    explicit: Option<i32>,
) -> Seq<Seq<Seq<char>>> {
    let tokens = tokens_of(fragments);
    let threshold = threshold_in_force(tokens, explicit);
    emitted_all(
        dot_word_regex(),
        stop,
        threshold,
        paragraphs_of(tokens, threshold),
    )
}

/// The texts of each group.
pub open spec fn groups_of(groups: Seq<Vec<String>>) -> Seq<Seq<Seq<char>>> {
    Seq::new(groups.len(), |i: int| texts_of(groups[i]@))
}

/// Every line gathered, and every line of every paragraph, has survived.
pub open spec fn all_survive(scan: GroupScan) -> bool {
    &&& forall|k: int| 0 <= k < scan.lines.len() ==> survives(#[trigger] scan.lines[k])
    &&& forall|g: int, k: int|
        0 <= g < scan.groups.len() && 0 <= k < scan.groups[g].len() ==> survives(
            #[trigger] scan.groups[g][k],
        )
    &&& forall|g: int| 0 <= g < scan.groups.len() ==> (#[trigger] scan.groups[g]).len() > 0
}

/// At every step of the grouping the run is no longer than the tokens read,
/// no paragraph is empty, and only lines that survive are held.
pub proof fn lemma_group_scan(tokens: Seq<Seq<char>>, threshold: int, n: nat)
    requires
        n <= tokens.len(),
    ensures
        group_scan(tokens, threshold, n).run <= n,
        all_survive(group_scan(tokens, threshold, n)),
        n == tokens.len() ==> group_scan(tokens, threshold, n).lines.len() == 0,
    decreases n,
{
    if n > 0 {
        let before = group_scan(tokens, threshold, (n - 1) as nat);
        lemma_group_scan(tokens, threshold, (n - 1) as nat);
        let read = read_token(before, tokens[n - 1]);
        let after = group_scan(tokens, threshold, n);
        assert(all_survive(read)) by {
            assert forall|k: int| 0 <= k < read.lines.len() implies survives(
                #[trigger] read.lines[k],
            ) by {
                if k < before.lines.len() {
                    assert(read.lines[k] == before.lines[k]);
                }
            }
        }
        assert(all_survive(after)) by {
            assert forall|g: int, k: int|
                0 <= g < after.groups.len() && 0 <= k < after.groups[g].len() implies survives(
                #[trigger] after.groups[g][k],
            ) by {
                if g < read.groups.len() {
                    assert(after.groups[g] == read.groups[g]);
                } else {
                    assert(after.groups[g][k] == read.lines[k]);
                }
            }
            assert forall|g: int| 0 <= g < after.groups.len() implies (#[trigger] after.groups[g]).len()
                > 0 by {
                if g < read.groups.len() {
                    assert(after.groups[g] == read.groups[g]);
                }
            }
        }
    }
}

/// Whether a line survives into a paragraph.
pub fn line_survives(token: &[char]) -> (r: bool)
    ensures
        r == survives(token@),
{
    let kept = trim(token);
    proof {
        lemma_blank_iff_trimmed_empty(token@);
    }
    kept.len() > 0 && kept[0] != '<'
}

/// What is given out for one paragraph.
fn emit(re: &Option<Regex>, stop: Option<&Regex>, verbatim: bool, lines: Vec<Vec<char>>) -> (out:
    Vec<String>)
    requires
        lines@.len() > 0,
        no_line_empty(views_of(lines@)),
    ensures
        texts_of(out@) == if verbatim {
            views_of(lines@)
        } else {
            finished(
                match stop {
                    Some(expression) => Some(*expression),
                    None => None,
                },
                regrouped(*re, views_of(lines@)),
            )
        },
{
    if verbatim {
        strings_of(&lines)
    } else {
        let units = regroup_lines(re, &lines);
        let texts = strings_of(&units);
        match stop {
            Some(expression) => apply(texts, expression),
            None => texts,
        }
    }
}

/// Groups the fragments of a document into paragraphs and gives out, for
/// each paragraph, its sentence-like units.
///
/// There is no result exactly when there is no fragment. Else the fragments
/// are cut into tokens; with no explicit threshold the threshold is
/// estimated from the tokens; the lines that survive are gathered until the
/// run of breaks reaches the threshold, or the tokens end, and each gathering
/// that holds a line becomes a paragraph. With the threshold 0 a paragraph is
/// given out as its lines; else its lines are regrouped into units, which are
/// cleaned where a stop-word expression is given.
pub fn group_and_segment(
    raw_fragments: &[String],
    explicit_threshold: Option<i32>,
    stop_words: Option<&Regex>,
) -> (result: Option<Vec<Vec<String>>>)
    ensures
        result is None <==> raw_fragments@.len() == 0,
        result is Some ==> groups_of(result->Some_0@) == grouped(
            match stop_words {
                Some(expression) => Some(*expression),
                None => None,
            },
            texts_of(raw_fragments@),
            explicit_threshold,
        ),
        result is Some ==> forall|g: int, k: int|
            0 <= g < result->Some_0@.len() && 0 <= k < result->Some_0@[g]@.len() ==> !is_blank(
                (#[trigger] result->Some_0@[g]@[k])@,
            ),
{
    if raw_fragments.len() == 0 {
        return None;
    }
    let tokens = tokenize(raw_fragments);
    let ghost all = token_texts(tokens@);
    let ghost stop = match stop_words {
        Some(expression) => Some(*expression),
        None => None,
    };
    let mut always = false;
    let mut verbatim = false;
    let mut limit: usize = 0;
    match explicit_threshold {
        Some(t) => {
            if t <= 0 {
                always = true;
                verbatim = t == 0;
            } else {
                limit = t as usize;
            }
        },
        None => {
            limit = estimate_threshold(&tokens);
        },
    }
    let ghost threshold = threshold_in_force(all, explicit_threshold);
    assert(verbatim == (threshold == 0));
    assert(always ==> threshold <= 0);
    assert(!always ==> threshold == limit);
    let re = dot_word_expression();
    let mut groups: Vec<Vec<String>> = Vec::new();
    let mut lines: Vec<Vec<char>> = Vec::new();
    let mut run: usize = 0;
    let n = tokens.len();
    let mut i: usize = 0;
    while i < n
        invariant
            i <= n,
            n == tokens@.len(),
            all == token_texts(tokens@),
            verbatim == (threshold == 0),
            always ==> threshold <= 0,
            !always ==> threshold == limit,
            re == dot_word_regex(),
            stop == match stop_words {
                Some(expression) => Some(*expression),
                None => None,
            },
            run == group_scan(all, threshold, i as nat).run,
            views_of(lines@) == group_scan(all, threshold, i as nat).lines,
            groups_of(groups@) == emitted_all(
                re,
                stop,
                threshold,
                group_scan(all, threshold, i as nat).groups,
            ),
        decreases n - i,
    {
        let ghost before = group_scan(all, threshold, i as nat);
        proof {
            lemma_group_scan(all, threshold, i as nat);
            lemma_group_scan(all, threshold, (i + 1) as nat);
        }
        let token = &tokens[i];
        assert(token.text() == all[i as int]);
        if token.is_break() {
            run += 1;
        } else {
            match token {
                Token::Line(text) => {
                    if line_survives(text.as_slice()) {
                        let line = text.clone();
                        let ghost was = views_of(lines@);
                        lines.push(line);
                        assert(views_of(lines@) =~= was.push(text@));
                        run = 0;
                    }
                },
                Token::Break => {},
            }
        }
        let ghost read = read_token(before, all[i as int]);
        assert(views_of(lines@) == read.lines && run == read.run);
        i += 1;
        if (always || run >= limit || i == n) && lines.len() > 0 {
            let ghost gathered = views_of(lines@);
            proof {
                let after = group_scan(all, threshold, i as nat);
                assert(after.groups == read.groups.push(gathered));
                assert(after.groups.last() == gathered);
                assert forall|k: int| 0 <= k < gathered.len() implies (#[trigger] gathered[k]).len()
                    > 0 by {
                    assert(survives(after.groups[after.groups.len() - 1][k]));
                    assert(!is_blank(gathered[k]));
                }
            }
            let mut taken: Vec<Vec<char>> = Vec::new();
            core::mem::swap(&mut lines, &mut taken);
            let ghost was = groups_of(groups@);
            let group = emit(&re, stop_words, verbatim, taken);
            groups.push(group);
            run = 0;
            assert(views_of(lines@) =~= Seq::<Seq<char>>::empty());
            assert(groups_of(groups@) =~= was.push(emitted(re, stop, threshold, gathered)));
            assert(groups_of(groups@) =~= emitted_all(
                re,
                stop,
                threshold,
                read.groups.push(gathered),
            ));
        }
    }
    proof {
        let given = grouped(stop, texts_of(raw_fragments@), explicit_threshold);
        crate::laws::law_no_unit_is_blank(stop, texts_of(raw_fragments@), explicit_threshold);
        assert forall|g: int, k: int|
            0 <= g < groups@.len() && 0 <= k < groups@[g]@.len() implies !is_blank(
            (#[trigger] groups@[g]@[k])@,
        ) by {
            assert(groups_of(groups@)[g] == texts_of(groups@[g]@));
            assert(given[g][k] == groups@[g]@[k]@);
            lemma_blank_iff_trimmed_empty(given[g][k]);
        }
    }
    Some(groups)
}

/// Groups the fragments of a document into paragraphs and gives out, for
/// each paragraph, its sentence-like units; no stop words are removed.
pub fn group_text_nodes(sentences: &[String], min_split: Option<i32>) -> (result: Option<
    Vec<Vec<String>>,
>)
    ensures
        result is None <==> sentences@.len() == 0,
        result is Some ==> groups_of(result->Some_0@) == grouped(
            None,
            texts_of(sentences@),
            min_split,
        ),
        result is Some ==> forall|g: int, k: int|
            0 <= g < result->Some_0@.len() && 0 <= k < result->Some_0@[g]@.len() ==> !is_blank(
                (#[trigger] result->Some_0@[g]@[k])@,
            ),
{
    group_and_segment(sentences, min_split, None)
}

} // verus!
