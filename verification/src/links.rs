//! The links of a document: its alternate versions by language, and the
//! targets and texts of its anchors.

use vstd::prelude::*;
use crate::meta::attribute_is;
use crate::meta::attribute_is_filled;
use crate::meta::attribute_or_empty;
use crate::meta::value_or_empty;
use crate::text::texts_of;

verus! {

/// A `link` tag, as far as it is read: three of its attributes, each absent
/// or with its value.
pub struct LinkTag {
    pub rel: Option<String>,
    pub hreflang: Option<String>,
    pub href: Option<String>,
}

/// The alternate versions of a document in one language.
pub struct Alternates {
    pub hreflang: String,
    pub hrefs: Vec<String>,
}

/// An anchor: its `href` attribute and its text.
pub struct Anchor {
    pub href: Option<String>,
    pub text: String,
}

/// The link names an alternate version in a language.
pub open spec fn is_alternate(link: LinkTag) -> bool {
    value_or_empty(link.rel) == "alternate"@ && value_or_empty(link.hreflang).len() > 0
}

/// The link names an alternate version in the language `lang`.
pub open spec fn is_alternate_in(link: LinkTag, lang: Seq<char>) -> bool {
    is_alternate(link) && value_or_empty(link.hreflang) == lang
}

/// The targets of the alternate versions in the language `lang`, in the
/// order of the links; a link without target gives the empty text.
pub open spec fn hrefs_in(links: Seq<LinkTag>, lang: Seq<char>) -> Seq<Seq<char>>
    decreases links.len(),
{
    if links.len() == 0 {
        Seq::empty()
    } else if is_alternate_in(links.last(), lang) {
        hrefs_in(links.drop_last(), lang).push(value_or_empty(links.last().href))
    } else {
        hrefs_in(links.drop_last(), lang)
    }
}

/// The entries are the alternate versions of the links: no language stands
/// twice, each entry holds the targets of its language, which are some, and
/// the language of every alternate link has its entry.
pub open spec fn are_alternates_of(entries: Seq<Alternates>, links: Seq<LinkTag>) -> bool {
    &&& forall|i: int, j: int|
        0 <= i < j < entries.len() ==> entries[i].hreflang@ != entries[j].hreflang@
    &&& forall|e: int|
        0 <= e < entries.len() ==> texts_of((#[trigger] entries[e]).hrefs@) == hrefs_in(
            links,
            entries[e].hreflang@,
        ) && entries[e].hrefs@.len() > 0
    &&& forall|i: int|
        0 <= i < links.len() && is_alternate(#[trigger] links[i]) ==> has_entry(
            entries,
            value_or_empty(links[i].hreflang),
        )
}

/// Some entry is for the language `lang`.
pub open spec fn has_entry(entries: Seq<Alternates>, lang: Seq<char>) -> bool {
    exists|e: int| 0 <= e < entries.len() && (#[trigger] entries[e]).hreflang@ == lang
}

/// The target of each anchor, empty where it has none.
pub open spec fn targets_of(hrefs: Seq<Option<String>>) -> Seq<Seq<char>> {
    Seq::new(hrefs.len(), |i: int| value_or_empty(hrefs[i]))
}

/// The target and the text of each anchor.
pub open spec fn pairs_of(anchors: Seq<Anchor>) -> Seq<(Seq<char>, Seq<char>)> {
    Seq::new(anchors.len(), |i: int| (value_or_empty(anchors[i].href), anchors[i].text@))
}

/// The texts of each pair.
pub open spec fn pair_texts(pairs: Seq<(String, String)>) -> Seq<(Seq<char>, Seq<char>)> {
    Seq::new(pairs.len(), |i: int| (pairs[i].0@, pairs[i].1@))
}

/// Links of which none is an alternate version in a language give no
/// target for it.
proof fn lemma_no_alternate_no_href(links: Seq<LinkTag>, lang: Seq<char>)
    requires
        forall|i: int| 0 <= i < links.len() ==> !is_alternate_in(#[trigger] links[i], lang),
    ensures
        hrefs_in(links, lang) == Seq::<Seq<char>>::empty(),
    decreases links.len(),
{
    if links.len() > 0 {
        assert(!is_alternate_in(links[links.len() - 1], lang));
        assert forall|i: int| 0 <= i < links.drop_last().len() implies !is_alternate_in(
            #[trigger] links.drop_last()[i],
            lang,
        ) by {
            assert(links.drop_last()[i] == links[i]);
        }
        lemma_no_alternate_no_href(links.drop_last(), lang);
    }
}

/// The alternate versions of a document by language: for each language that
/// a `link` tag of the relation `alternate` names, the targets of those tags,
/// in their order.
pub fn get_rel_alternate(links: &[LinkTag]) -> (entries: Vec<Alternates>)
    ensures
        are_alternates_of(entries@, links@),
{
    let mut entries: Vec<Alternates> = Vec::new();
    let n = links.len();
    let mut k: usize = 0;
    assert(links@.take(0) =~= Seq::<LinkTag>::empty());
    while k < n
        invariant
            k <= n,
            n == links@.len(),
            are_alternates_of(entries@, links@.take(k as int)),
        decreases n - k,
    {
        let ghost seen = links@.take(k as int);
        let ghost seen_next = links@.take(k + 1);
        let ghost before = entries@;
        let ghost link = links@[k as int];
        assert(seen_next.drop_last() =~= seen);
        assert(seen_next.last() == link);
        if attribute_is(&links[k].rel, "alternate") && attribute_is_filled(&links[k].hreflang) {
            let lang = attribute_or_empty(&links[k].hreflang);
            let href = attribute_or_empty(&links[k].href);
            let mut e: usize = 0;
            while e < entries.len() && entries[e].hreflang != lang
                invariant
                    e <= entries@.len(),
                    before == entries@,
                    forall|j: int| 0 <= j < e ==> before[j].hreflang@ != lang@,
                decreases entries@.len() - e,
            {
                e += 1;
            }
            if e < entries.len() {
                let mut entry = entries.remove(e);
                let ghost was = texts_of(entry.hrefs@);
                entry.hrefs.push(href);
                assert(texts_of(entry.hrefs@) =~= was.push(href@));
                entries.insert(e, entry);
                proof {
                    let after = entries@;
                    assert(after.len() == before.len());
                    assert forall|i: int| 0 <= i < after.len() implies (#[trigger] after[i]).hreflang
                        == before[i].hreflang && (i != e ==> after[i] == before[i]) by {}
                    assert forall|x: int| 0 <= x < after.len() implies texts_of(
                        (#[trigger] after[x]).hrefs@,
                    ) == hrefs_in(seen_next, after[x].hreflang@) && after[x].hrefs@.len() > 0 by {
                        assert(texts_of(before[x].hrefs@) == hrefs_in(seen, before[x].hreflang@));
                        if x != e {
                            assert(before[x].hreflang@ != before[e as int].hreflang@);
                        }
                    }
                    assert forall|i: int|
                        0 <= i < seen_next.len() && is_alternate(
                            #[trigger] seen_next[i],
                        ) implies has_entry(after, value_or_empty(seen_next[i].hreflang)) by {
                        if i < k {
                            assert(seen[i] == seen_next[i]);
                            let w = choose|w: int|
                                0 <= w < before.len() && (#[trigger] before[w]).hreflang@
                                    == value_or_empty(seen[i].hreflang);
                            assert(after[w].hreflang@ == before[w].hreflang@);
                        } else {
                            assert(after[e as int].hreflang@ == lang@);
                        }
                    }
                    assert forall|i: int, j: int| 0 <= i < j < after.len() implies after[i].hreflang@
                        != after[j].hreflang@ by {
                        assert(before[i].hreflang@ != before[j].hreflang@);
                    }
                }
            } else {
                let mut hrefs: Vec<String> = Vec::new();
                hrefs.push(href);
                assert(texts_of(hrefs@) =~= seq![href@]);
                entries.push(Alternates { hreflang: lang, hrefs });
                proof {
                    let after = entries@;
                    assert forall|i: int| 0 <= i < seen.len() implies !is_alternate_in(
                        #[trigger] seen[i],
                        lang@,
                    ) by {
                        if is_alternate_in(seen[i], lang@) {
                            let w = choose|w: int|
                                0 <= w < before.len() && (#[trigger] before[w]).hreflang@
                                    == value_or_empty(seen[i].hreflang);
                            assert(before[w].hreflang@ != lang@);
                        }
                    }
                    lemma_no_alternate_no_href(seen, lang@);
                    assert forall|x: int| 0 <= x < after.len() implies texts_of(
                        (#[trigger] after[x]).hrefs@,
                    ) == hrefs_in(seen_next, after[x].hreflang@) && after[x].hrefs@.len() > 0 by {
                        if x < before.len() {
                            assert(after[x] == before[x]);
                            assert(texts_of(before[x].hrefs@) == hrefs_in(
                                seen,
                                before[x].hreflang@,
                            ));
                        } else {
                            assert(hrefs_in(seen_next, lang@) =~= seq![href@]);
                        }
                    }
                    assert forall|i: int|
                        0 <= i < seen_next.len() && is_alternate(
                            #[trigger] seen_next[i],
                        ) implies has_entry(after, value_or_empty(seen_next[i].hreflang)) by {
                        if i < k {
                            assert(seen[i] == seen_next[i]);
                            let w = choose|w: int|
                                0 <= w < before.len() && (#[trigger] before[w]).hreflang@
                                    == value_or_empty(seen[i].hreflang);
                            assert(after[w] == before[w]);
                        } else {
                            assert(after[before.len() as int].hreflang@ == lang@);
                        }
                    }
                    assert forall|i: int, j: int| 0 <= i < j < after.len() implies after[i].hreflang@
                        != after[j].hreflang@ by {
                        if j < before.len() {
                            assert(before[i].hreflang@ != before[j].hreflang@);
                        } else {
                            assert(after[i] == before[i]);
                        }
                    }
                }
            }
        } else {
            proof {
                assert forall|x: int| 0 <= x < before.len() implies texts_of(
                    (#[trigger] before[x]).hrefs@,
                ) == hrefs_in(seen_next, before[x].hreflang@) && before[x].hrefs@.len() > 0 by {
                    assert(texts_of(before[x].hrefs@) == hrefs_in(seen, before[x].hreflang@));
                }
                assert forall|i: int|
                    0 <= i < seen_next.len() && is_alternate(#[trigger] seen_next[i]) implies has_entry(
                    before,
                    value_or_empty(seen_next[i].hreflang),
                ) by {
                    assert(seen[i] == seen_next[i]);
                }
            }
        }
        k += 1;
    }
    assert(links@.take(n as int) =~= links@);
    entries
}

/// The target of each anchor, given the `href` attribute of each; an anchor
/// without the attribute gives the empty string.
pub fn get_href_attributes(hrefs: &[Option<String>]) -> (targets: Vec<String>)
    ensures
        texts_of(targets@) == targets_of(hrefs@),
{
    let mut targets: Vec<String> = Vec::new();
    let n = hrefs.len();
    let mut i: usize = 0;
    while i < n
        invariant
            i <= n,
            n == hrefs@.len(),
            texts_of(targets@) == targets_of(hrefs@).take(i as int),
        decreases n - i,
    {
        let target = attribute_or_empty(&hrefs[i]);
        let ghost before = texts_of(targets@);
        targets.push(target);
        i += 1;
        assert(texts_of(targets@) =~= before.push(target@));
        assert(targets_of(hrefs@).take(i as int) =~= before.push(value_or_empty(hrefs@[i - 1])));
    }
    assert(targets_of(hrefs@).take(n as int) =~= targets_of(hrefs@));
    targets
}

/// The target and the text of each anchor; an anchor without `href` gives
/// the empty string as its target.
pub fn get_links(anchors: &[Anchor]) -> (pairs: Vec<(String, String)>)
    ensures
        pair_texts(pairs@) == pairs_of(anchors@),
{
    let mut pairs: Vec<(String, String)> = Vec::new();
    let n = anchors.len();
    let mut i: usize = 0;
    while i < n
        invariant
            i <= n,
            n == anchors@.len(),
            pair_texts(pairs@) == pairs_of(anchors@).take(i as int),
        decreases n - i,
    {
        let target = attribute_or_empty(&anchors[i].href);
        let text = anchors[i].text.clone();
        let ghost before = pair_texts(pairs@);
        pairs.push((target, text));
        i += 1;
        assert(pair_texts(pairs@) =~= before.push((target@, text@)));
        assert(pairs_of(anchors@).take(i as int) =~= before.push(
            (value_or_empty(anchors@[i - 1].href), anchors@[i - 1].text@),
        ));
    }
    assert(pairs_of(anchors@).take(n as int) =~= pairs_of(anchors@));
    pairs
}

} // verus!
