//! The regrouping of a paragraph's lines: neighbouring lines that are tied
//! form a chain, and each chain is joined and split into units.

use vstd::prelude::*;
use regex::Regex;
use crate::joiner::dot_word_expression;
use crate::joiner::join_chain;
use crate::joiner::joined_chain;
use crate::joiner::dot_word_regex;
use crate::punctuation::is_tied;
use crate::punctuation::tied;
use crate::splitter::extend_lines;
use crate::splitter::is_unit;
use crate::splitter::lemma_kept_units_are_units;
use crate::splitter::parts_of;
use crate::splitter::split_units;
use crate::splitter::units_of;
use crate::text::lines_of;
use crate::text::strings_of;
use crate::text::texts_of;
use crate::text::views_of;

verus! {

/// Two neighbouring lines are tied by the characters that meet: the last of
/// `left` and the first of `right`.
pub open spec fn lines_tied(left: Seq<char>, right: Seq<char>) -> bool {
    tied(left.last(), right.first())
}

/// The state of the walk along a paragraph's lines: the chains that are
/// complete, and the lines of the chain that is still open.
pub struct ChainScan {
    pub done: Seq<Seq<Seq<char>>>,
    pub open: Seq<Seq<char>>,
}

/// The walk after the first `n` lines: the first line opens a chain; a later
/// line joins the open chain where it is tied to the line in front of it, and
/// else closes that chain and opens the next.
pub open spec fn chain_scan(lines: Seq<Seq<char>>, n: nat) -> ChainScan
    decreases n,
{
    if n == 0 {
        ChainScan { done: Seq::empty(), open: Seq::empty() }
    } else {
        let before = chain_scan(lines, (n - 1) as nat);
        if n == 1 || lines_tied(lines[n - 2], lines[n - 1]) {
            ChainScan { done: before.done, open: before.open.push(lines[n - 1]) }
        } else {
            ChainScan { done: before.done.push(before.open), open: seq![lines[n - 1]] }
        }
    }
}

/// The chains of a paragraph: its maximal runs of lines of which each is
/// tied to the next.
pub open spec fn chains_of(lines: Seq<Seq<char>>) -> Seq<Seq<Seq<char>>> {
    if lines.len() == 0 {
        Seq::empty()
    } else {
        chain_scan(lines, lines.len()).done.push(chain_scan(lines, lines.len()).open)
    }
}

/// The units of the chains, in order: each chain is joined into one text,
/// and the text is split.
pub open spec fn units_of_chains(re: Option<Regex>, chains: Seq<Seq<Seq<char>>>) -> Seq<Seq<char>>
    decreases chains.len(),
{
    if chains.len() == 0 {
        Seq::empty()
    } else {
        units_of_chains(re, chains.drop_last()) + units_of(joined_chain(re, chains.last()))
    }
}

/// The units of a paragraph. A single line is split as it stands; several
/// lines are gathered in chains first.
pub open spec fn regrouped(re: Option<Regex>, lines: Seq<Seq<char>>) -> Seq<Seq<char>> {
    if lines.len() == 1 {
        units_of(lines[0])
    } else {
        units_of_chains(re, chains_of(lines))
    }
}

/// The chains of the walk, one after the other, are the lines walked, and no
/// chain but an open one at the very start is empty.
pub proof fn lemma_chain_scan(lines: Seq<Seq<char>>, n: nat)
    requires
        n <= lines.len(),
    ensures
        chain_scan(lines, n).done.flatten() + chain_scan(lines, n).open == lines.take(n as int),
        forall|k: int|
            0 <= k < chain_scan(lines, n).done.len() ==> (#[trigger] chain_scan(
                lines,
                n,
            ).done[k]).len() > 0,
        n > 0 ==> chain_scan(lines, n).open.len() > 0,
    decreases n,
{
    broadcast use vstd::seq::Seq::lemma_flatten_push;

    let after = chain_scan(lines, n);
    if n == 0 {
        assert(after.done.flatten() + after.open =~= lines.take(0));
    } else {
        let before = chain_scan(lines, (n - 1) as nat);
        lemma_chain_scan(lines, (n - 1) as nat);
        assert(lines.take(n as int) =~= lines.take(n - 1).push(lines[n - 1]));
        if n == 1 || lines_tied(lines[n - 2], lines[n - 1]) {
            assert(after.done.flatten() + after.open =~= (before.done.flatten()
                + before.open).push(lines[n - 1]));
        } else {
            assert(after.done.flatten() =~= before.done.flatten() + before.open);
            assert(after.done.flatten() + after.open =~= (before.done.flatten()
                + before.open).push(lines[n - 1]));
            assert forall|k: int| 0 <= k < after.done.len() implies (#[trigger] after.done[k]).len()
                > 0 by {
                if k < before.done.len() {
                    assert(after.done[k] == before.done[k]);
                }
            }
        }
    }
}

/// The chains of a paragraph, one after the other, are its lines in their
/// order, and no chain is empty.
pub proof fn law_chains_keep_the_lines(lines: Seq<Seq<char>>)
    ensures
        chains_of(lines).flatten() == lines,
        forall|k: int| 0 <= k < chains_of(lines).len() ==> (#[trigger] chains_of(lines)[k]).len() > 0,
{
    broadcast use vstd::seq::Seq::lemma_flatten_push;

    if lines.len() == 0 {
        assert(chains_of(lines).flatten() =~= lines);
    } else {
        lemma_chain_scan(lines, lines.len());
        let scan = chain_scan(lines, lines.len());
        assert(lines.take(lines.len() as int) =~= lines);
        assert(chains_of(lines).flatten() =~= scan.done.flatten() + scan.open);
        assert forall|k: int| 0 <= k < chains_of(lines).len() implies (#[trigger] chains_of(
            lines,
        )[k]).len() > 0 by {
            if k < scan.done.len() {
                assert(chains_of(lines)[k] == scan.done[k]);
            }
        }
    }
}

/// Every unit of some chains is a unit.
pub proof fn lemma_units_of_chains_are_units(re: Option<Regex>, chains: Seq<Seq<Seq<char>>>)
    ensures
        forall|k: int|
            0 <= k < units_of_chains(re, chains).len() ==> is_unit(
                #[trigger] units_of_chains(re, chains)[k],
            ),
    decreases chains.len(),
{
    if chains.len() > 0 {
        let front = units_of_chains(re, chains.drop_last());
        let tail = units_of(joined_chain(re, chains.last()));
        lemma_units_of_chains_are_units(re, chains.drop_last());
        lemma_kept_units_are_units(parts_of(joined_chain(re, chains.last())));
        assert forall|k: int| 0 <= k < units_of_chains(re, chains).len() implies is_unit(
            #[trigger] units_of_chains(re, chains)[k],
        ) by {
            if k < front.len() {
                assert(units_of_chains(re, chains)[k] == front[k]);
            } else {
                assert(units_of_chains(re, chains)[k] == tail[k - front.len()]);
            }
        }
    }
}

/// Every unit of a regrouped paragraph is a unit: it is not empty and
/// neither starts nor ends with white space.
pub proof fn lemma_regrouped_gives_units(re: Option<Regex>, lines: Seq<Seq<char>>)
    ensures
        forall|k: int|
            0 <= k < regrouped(re, lines).len() ==> is_unit(#[trigger] regrouped(re, lines)[k]),
{
    if lines.len() == 1 {
        lemma_kept_units_are_units(parts_of(lines[0]));
    } else {
        lemma_units_of_chains_are_units(re, chains_of(lines));
    }
}

/// No line is empty.
pub open spec fn no_line_empty(lines: Seq<Seq<char>>) -> bool {
    forall|k: int| 0 <= k < lines.len() ==> (#[trigger] lines[k]).len() > 0
}

/// The units of a paragraph, with `re` the compiled dot-word expression.
pub fn regroup_lines(re: &Option<Regex>, lines: &Vec<Vec<char>>) -> (units: Vec<Vec<char>>)
    requires
        lines@.len() > 0,
        no_line_empty(views_of(lines@)),
    ensures
        views_of(units@) == regrouped(*re, views_of(lines@)),
{
    let ghost all = views_of(lines@);
    let n = lines.len();
    if n == 1 {
        assert(all[0] == lines@[0]@);
        return split_units(lines[0].as_slice());
    }
    let mut units: Vec<Vec<char>> = Vec::new();
    let mut chain: Vec<Vec<char>> = Vec::new();
    let mut k: usize = 0;
    while k < n
        invariant
            k <= n,
            n == lines@.len(),
            all == views_of(lines@),
            no_line_empty(all),
            views_of(units@) == units_of_chains(*re, chain_scan(all, k as nat).done),
            views_of(chain@) == chain_scan(all, k as nat).open,
        decreases n - k,
    {
        let line = lines[k].clone();
        assert(line@ == all[k as int]);
        let stays = if k == 0 {
            true
        } else {
            let left = &lines[k - 1];
            assert(all[k - 1] == left@);
            assert(left@.len() > 0 && line@.len() > 0);
            is_tied(left[left.len() - 1], line[0])
        };
        let ghost before = chain_scan(all, k as nat);
        if stays {
            let ghost was = views_of(chain@);
            chain.push(line);
            assert(views_of(chain@) =~= was.push(line@));
        } else {
            let joined = join_chain(re, &chain);
            let more = split_units(joined.as_slice());
            extend_lines(&mut units, more);
            chain = Vec::new();
            chain.push(line);
            assert(views_of(chain@) =~= seq![line@]);
            assert(before.done.push(before.open).drop_last() =~= before.done);
        }
        k += 1;
    }
    let ghost scan = chain_scan(all, n as nat);
    let joined = join_chain(re, &chain);
    let more = split_units(joined.as_slice());
    extend_lines(&mut units, more);
    assert(scan.done.push(scan.open).drop_last() =~= scan.done);
    units
}

/// Regroups the lines of one paragraph into sentence-like units. A single
/// line is split as it stands. Of several lines, neighbours that are tied are
/// gathered in a chain; each chain is joined into one text, and the text is
/// split. The units come in the order of the lines.
pub fn regroup_node(node: &[String]) -> (units: Vec<String>)
    requires
        node@.len() > 0,
        no_line_empty(texts_of(node@)),
    ensures
        texts_of(units@) == regrouped(dot_word_regex(), texts_of(node@)),
        forall|k: int| 0 <= k < units@.len() ==> is_unit(#[trigger] texts_of(units@)[k]),
{
    let lines = lines_of(node);
    let re = dot_word_expression();
    let units = regroup_lines(&re, &lines);
    proof {
        lemma_regrouped_gives_units(re, texts_of(node@));
    }
    strings_of(&units)
}

} // verus!
