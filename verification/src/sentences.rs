//! The sentences of a page, gathered from the texts that were read from it.

use vstd::prelude::*;
use regex::Regex;
use crate::cleanup::applied;
use crate::cleanup::apply;
use crate::descriptions::get_descriptions;
use crate::descriptions::is_described;
use crate::descriptions::strictly_ascending;
use crate::grouper::group_text_nodes;
use crate::grouper::grouped;
use crate::grouper::groups_of;
use crate::meta::first_keywords;
use crate::meta::get_json_ld;
use crate::meta::get_keywords;
use crate::meta::linked_data;
use crate::meta::MetaTag;
use crate::meta::ScriptTag;
use crate::nodes::get_text_and_remove;
use crate::nodes::get_text_nodes;
use crate::nodes::kept_texts;
use crate::nodes::nodes_of;
use crate::nodes::tidied_texts;
use crate::paragraphs::ranked;
use crate::paragraphs::select_paragraphs;
use crate::text::texts_of;

verus! {

/// What was read from a page, in plain values.
pub struct PageTexts {
    /// The `script` tags of the page as it came.
    pub scripts: Vec<ScriptTag>,
    /// The raw texts of the text nodes, once the unwanted parts were removed.
    pub text_nodes: Vec<String>,
    /// For each level of heading, for each heading of that level, the raw
    /// texts of its text nodes.
    pub headings: Vec<Vec<Vec<String>>>,
    /// For each paragraph, the raw texts of its text nodes.
    pub paragraphs: Vec<Vec<String>>,
    /// The `meta` tags of the page.
    pub metas: Vec<MetaTag>,
    /// The raw texts of the text nodes that are left without the headings
    /// and the paragraphs.
    pub rest: Vec<String>,
}

/// The sentences of a page.
pub struct Sentences {
    pub descriptions: Vec<String>,
    pub h: Vec<Vec<String>>,
    pub json_ld: Vec<String>,
    pub keywords: String,
    pub other: Vec<String>,
    pub p: Vec<String>,
    pub text_nodes: Vec<Vec<String>>,
}

/// The groups of the text nodes, where they are asked for and there are
/// text nodes; else none.
pub open spec fn text_node_groups(
    text_nodes: Seq<Seq<char>>,
    add_text_nodes: bool,
    min_split: Option<i32>,
) -> Seq<Seq<Seq<char>>> {
    if add_text_nodes && text_nodes.len() > 0 {
        grouped(None, text_nodes, min_split)
    } else {
        Seq::empty()
    }
}

/// The keywords, or the empty text where there are none.
pub open spec fn keywords_or_empty(tags: Seq<MetaTag>) -> Seq<char> {
    match first_keywords(tags) {
        Some(keywords) => keywords,
        None => Seq::empty(),
    }
}

/// `found` holds the sentences of `page`.
pub open spec fn are_sentences_of(
    found: Sentences,
    page: PageTexts,
    stop: Regex,
    add_text_nodes: bool,
    min_split: Option<i32>,
) -> bool {
    &&& texts_of(found.json_ld@) == linked_data(page.scripts@)
    &&& groups_of(found.text_nodes@) == text_node_groups(
        texts_of(page.text_nodes@),
        add_text_nodes,
        min_split,
    )
    &&& found.h@.len() == page.headings@.len()
    &&& forall|level: int|
        0 <= level < found.h@.len() ==> texts_of((#[trigger] found.h@[level])@) == applied(
            stop,
            tidied_texts(nodes_of(page.headings@[level]@)),
        )
    &&& texts_of(found.p@) == applied(stop, ranked(tidied_texts(nodes_of(page.paragraphs@))))
    &&& strictly_ascending(texts_of(found.descriptions@))
    &&& forall|text: Seq<char>|
        texts_of(found.descriptions@).contains(text) <==> is_described(page.metas@, text)
    &&& found.keywords@ == keywords_or_empty(page.metas@)
    &&& texts_of(found.other@) == kept_texts(texts_of(page.rest@))
}

/// Gathers the sentences of a page: its linked data; the groups of its text
/// nodes, where they are asked for; the cleaned texts of its headings, level
/// by level; the cleaned texts of its paragraphs of more than two words, the
/// longest first; its descriptions and keywords; and the texts that are left.
pub fn get_sentences(
    page: &PageTexts,
    stop_word: &Regex,
    add_text_nodes: bool,
    min_split_for_text_nodes: Option<i32>,
) -> (found: Sentences)
    ensures
        are_sentences_of(found, *page, *stop_word, add_text_nodes, min_split_for_text_nodes),
{
    let json_ld = get_json_ld(page.scripts.as_slice());
    let mut text_nodes: Vec<Vec<String>> = Vec::new();
    assert(groups_of(text_nodes@) =~= Seq::<Seq<Seq<char>>>::empty());
    if add_text_nodes {
        match group_text_nodes(page.text_nodes.as_slice(), min_split_for_text_nodes) {
            Some(groups) => {
                text_nodes = groups;
            },
            None => {},
        }
    }
    let mut h: Vec<Vec<String>> = Vec::new();
    let levels = page.headings.len();
    let mut level: usize = 0;
    while level < levels
        invariant
            level <= levels,
            levels == page.headings@.len(),
            h@.len() == level,
            forall|l: int|
                0 <= l < level ==> texts_of((#[trigger] h@[l])@) == applied(
                    *stop_word,
                    tidied_texts(nodes_of(page.headings@[l]@)),
                ),
        decreases levels - level,
    {
        let texts = get_text_and_remove(page.headings[level].as_slice());
        let cleaned = apply(texts, stop_word);
        h.push(cleaned);
        level += 1;
    }
    let paragraphs = get_text_and_remove(page.paragraphs.as_slice());
    let chosen = select_paragraphs(paragraphs.as_slice());
    let p = apply(chosen, stop_word);
    let descriptions = get_descriptions(page.metas.as_slice());
    let keywords = match get_keywords(page.metas.as_slice()) {
        Some(keywords) => keywords,
        None => String::new(),
    };
    let other = get_text_nodes(page.rest.as_slice());
    Sentences { descriptions, h, json_ld, keywords, other, p, text_nodes }
}

} // verus!
