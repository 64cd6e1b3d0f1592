//! The texts of a document's text nodes: trimmed, without leftover markup,
//! and joined.

use vstd::prelude::*;
use crate::cleanup::contains_char;
use crate::cleanup::contains_run;
use crate::cleanup::has_run;
use crate::text::chars_of;
use crate::text::is_blank;
use crate::text::join_with_spaces;
use crate::text::joined_with_spaces;
use crate::text::lemma_blank_iff_trimmed_empty;
use crate::text::split_words;
use crate::text::string_of;
use crate::text::texts_of;
use crate::text::trim;
use crate::text::trimmed;
use crate::text::views_of;
use crate::text::words_of;

verus! {

/// `s` without a full stop or comma at its end.
pub open spec fn without_final_mark(s: Seq<char>) -> Seq<char> {
    if s.len() > 0 && (s.last() == '.' || s.last() == ',') {
        s.drop_last()
    } else {
        s
    }
}

/// The words of `s` joined by single spaces, without a full stop or comma at
/// the end.
pub open spec fn tidied(s: Seq<char>) -> Seq<char> {
    without_final_mark(joined_with_spaces(words_of(s)))
}

/// The text looks like markup that was left over: it holds `<` and `>`, and
/// the start of a closing tag or the end of an empty one.
pub open spec fn is_markup_like(s: Seq<char>) -> bool {
    s.contains('<') && s.contains('>') && (has_run(s, "</"@) || has_run(s, "/>"@))
}

/// The text of a node is kept when, trimmed, it is not empty and does not
/// look like markup.
pub open spec fn is_kept_text(raw: Seq<char>) -> bool {
    !is_blank(raw) && !is_markup_like(trimmed(raw))
}

/// The texts that are kept, trimmed, in their order.
pub open spec fn kept_texts(raw: Seq<Seq<char>>) -> Seq<Seq<char>>
    decreases raw.len(),
{
    if raw.len() == 0 {
        Seq::empty()
    } else if is_kept_text(raw.last()) {
        kept_texts(raw.drop_last()).push(trimmed(raw.last()))
    } else {
        kept_texts(raw.drop_last())
    }
}

/// The parts in order, with the separator between neighbours.
pub open spec fn joined_with(parts: Seq<Seq<char>>, separator: Seq<char>) -> Seq<char>
    decreases parts.len(),
{
    if parts.len() == 0 {
        Seq::empty()
    } else if parts.len() == 1 {
        parts[0]
    } else {
        joined_with(parts.drop_last(), separator) + separator + parts.last()
    }
}

/// The tidied texts of some nodes, each given by the raw texts of its text
/// nodes, without those of which nothing is left.
pub open spec fn tidied_texts(nodes: Seq<Seq<Seq<char>>>) -> Seq<Seq<char>>
    decreases nodes.len(),
{
    if nodes.len() == 0 {
        Seq::empty()
    } else {
        let front = tidied_texts(nodes.drop_last());
        let text = tidied(joined_with(kept_texts(nodes.last()), seq![' ']));
        if text.len() > 0 {
            front.push(text)
        } else {
            front
        }
    }
}

/// The raw texts of each node.
pub open spec fn nodes_of(nodes: Seq<Vec<String>>) -> Seq<Seq<Seq<char>>> {
    Seq::new(nodes.len(), |i: int| texts_of(nodes[i]@))
}

/// `n` without a full stop or comma at its end.
pub fn trim_punctuation(n: &str) -> (out: String)
    ensures
        out@ == without_final_mark(n@),
{
    let text = chars_of(n);
    let kept = drop_final_mark(text);
    string_of(kept.as_slice())
}

/// `text` without a full stop or comma at its end.
fn drop_final_mark(text: Vec<char>) -> (out: Vec<char>)
    ensures
        out@ == without_final_mark(text@),
{
    let mut text = text;
    let n = text.len();
    if n > 0 && (text[n - 1] == '.' || text[n - 1] == ',') {
        text.pop();
    }
    text
}

/// The words of `text` joined by single spaces, without a full stop or
/// comma at the end.
fn tidy(text: &[char]) -> (out: Vec<char>)
    ensures
        out@ == tidied(text@),
{
    let words = split_words(text);
    drop_final_mark(join_with_spaces(&words))
}

/// The words of `s` joined by single spaces, without a full stop or comma at
/// the end.
pub fn trim_whitespace(s: &str) -> (out: String)
    ensures
        out@ == tidied(s@),
{
    let text = chars_of(s);
    let kept = tidy(text.as_slice());
    string_of(kept.as_slice())
}

/// Whether a text looks like markup that was left over.
pub fn looks_like_markup(text: &[char]) -> (r: bool)
    ensures
        r == is_markup_like(text@),
{
    let closing = chars_of("</");
    let empty = chars_of("/>");
    contains_char(text, '<') && contains_char(text, '>') && (contains_run(
        text,
        closing.as_slice(),
    ) || contains_run(text, empty.as_slice()))
}

/// The texts that are kept, trimmed, as characters.
fn keep_texts(raw: &[String]) -> (out: Vec<Vec<char>>)
    ensures
        views_of(out@) == kept_texts(texts_of(raw@)),
{
    let mut out: Vec<Vec<char>> = Vec::new();
    let n = raw.len();
    let mut i: usize = 0;
    while i < n
        invariant
            i <= n,
            n == raw@.len(),
            views_of(out@) == kept_texts(texts_of(raw@).take(i as int)),
        decreases n - i,
    {
        let text = chars_of(raw[i].as_str());
        let kept = trim(text.as_slice());
        proof {
            lemma_blank_iff_trimmed_empty(text@);
            let all = texts_of(raw@);
            assert(all.take(i + 1).drop_last() =~= all.take(i as int));
            assert(all.take(i + 1).last() == text@);
        }
        if kept.len() > 0 && !looks_like_markup(kept.as_slice()) {
            let ghost before = views_of(out@);
            out.push(kept);
            assert(views_of(out@) =~= before.push(kept@));
        }
        i += 1;
    }
    assert(texts_of(raw@).take(n as int) =~= texts_of(raw@));
    out
}

/// The parts in order, with the separator between neighbours.
fn join_with(parts: &Vec<Vec<char>>, separator: &[char]) -> (out: Vec<char>)
    ensures
        out@ == joined_with(views_of(parts@), separator@),
{
    let mut out: Vec<char> = Vec::new();
    let n = parts.len();
    let mut k: usize = 0;
    while k < n
        invariant
            k <= n,
            n == parts@.len(),
            out@ == joined_with(views_of(parts@).take(k as int), separator@),
        decreases n - k,
    {
        let ghost start = out@;
        if k > 0 {
            append_chars(&mut out, separator);
        }
        append_chars(&mut out, parts[k].as_slice());
        k += 1;
        proof {
            let all = views_of(parts@);
            assert(all.take(k as int).drop_last() =~= all.take(k - 1));
            assert(all.take(k as int).last() == parts@[k - 1]@);
            if k == 1 {
                assert(out@ =~= parts@[0]@);
            }
        }
    }
    assert(views_of(parts@).take(n as int) =~= views_of(parts@));
    out
}

/// Puts the characters of `more` behind those of `out`.
fn append_chars(out: &mut Vec<char>, more: &[char])
    ensures
        final(out)@ == old(out)@ + more@,
{
    let ghost base = out@;
    let m = more.len();
    let mut j: usize = 0;
    while j < m
        invariant
            j <= m,
            m == more@.len(),
            out@ == base + more@.take(j as int),
        decreases m - j,
    {
        out.push(more[j]);
        j += 1;
        assert(out@ =~= base + more@.take(j as int));
    }
    assert(more@.take(m as int) =~= more@);
}

/// The texts of a node's text nodes that are kept: each trimmed, the empty
/// ones and those that look like markup left out.
pub fn get_text_nodes(raw: &[String]) -> (out: Vec<String>)
    ensures
        texts_of(out@) == kept_texts(texts_of(raw@)),
{
    let kept = keep_texts(raw);
    crate::text::strings_of(&kept)
}

/// The kept texts of a node's text nodes, joined with the separator.
pub fn get_text_string(raw: &[String], separator: &str) -> (out: String)
    ensures
        out@ == joined_with(kept_texts(texts_of(raw@)), separator@),
{
    let kept = keep_texts(raw);
    let between = chars_of(separator);
    let joined = join_with(&kept, between.as_slice());
    string_of(joined.as_slice())
}

/// The tidied text of each node, without those of which nothing is left:
/// the kept texts of a node are joined by spaces, their white space is
/// collapsed, and a full stop or comma at the end is dropped.
pub fn get_text_and_remove(nodes: &[Vec<String>]) -> (out: Vec<String>)
    ensures
        texts_of(out@) == tidied_texts(nodes_of(nodes@)),
{
    let mut out: Vec<String> = Vec::new();
    let n = nodes.len();
    let space = chars_of(" ");
    proof {
        reveal_strlit(" ");
        assert(space@ =~= seq![' ']);
    }
    let mut i: usize = 0;
    while i < n
        invariant
            i <= n,
            n == nodes@.len(),
            space@ == seq![' '],
            texts_of(out@) == tidied_texts(nodes_of(nodes@).take(i as int)),
        decreases n - i,
    {
        let kept = keep_texts(nodes[i].as_slice());
        let joined = join_with(&kept, space.as_slice());
        let text = tidy(joined.as_slice());
        proof {
            let all = nodes_of(nodes@);
            assert(all.take(i + 1).drop_last() =~= all.take(i as int));
            assert(all.take(i + 1).last() == texts_of(nodes@[i as int]@));
        }
        if text.len() > 0 {
            let line = string_of(text.as_slice());
            let ghost before = texts_of(out@);
            out.push(line);
            assert(texts_of(out@) =~= before.push(line@));
        }
        i += 1;
    }
    assert(nodes_of(nodes@).take(n as int) =~= nodes_of(nodes@));
    out
}

} // verus!
