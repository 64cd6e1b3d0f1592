//! The descriptions of a document: the distinct contents of its description
//! tags, in ascending order.

use vstd::prelude::*;
use crate::meta::attribute_is;
use crate::meta::attribute_is_filled;
use crate::meta::value_or_empty;
use crate::meta::MetaTag;
use crate::text::chars_of;
use crate::text::same_text;
use crate::text::strings_of;
use crate::text::texts_of;
use crate::text::views_of;

verus! {

/// `a` comes before `b` in the order of strings: at the first place where
/// they differ `a` has the smaller character, or `a` ends there and `b` goes on.
pub open spec fn text_lt(a: Seq<char>, b: Seq<char>) -> bool
    decreases a.len(),
{
    if b.len() == 0 {
        false
    } else if a.len() == 0 {
        true
    } else if a[0] != b[0] {
        a[0] < b[0]
    } else {
        text_lt(a.drop_first(), b.drop_first())
    }
}

/// Each text comes before every text behind it.
pub open spec fn strictly_ascending(texts: Seq<Seq<char>>) -> bool {
    forall|i: int, j: int| 0 <= i < j < texts.len() ==> text_lt(texts[i], texts[j])
}

/// The tag is a description: its name or its property says so, and its
/// content is not empty.
pub open spec fn is_description(tag: MetaTag) -> bool {
    &&& value_or_empty(tag.name) == "description"@ || value_or_empty(tag.name)
        == "og:description"@ || value_or_empty(tag.property) == "description"@ || value_or_empty(
        tag.property,
    ) == "og:description"@
    &&& value_or_empty(tag.content).len() > 0
}

/// Some description among the tags has the content `text`.
pub open spec fn is_described(tags: Seq<MetaTag>, text: Seq<char>) -> bool {
    exists|i: int|
        0 <= i < tags.len() && is_description(#[trigger] tags[i]) && value_or_empty(tags[i].content)
            == text
}

/// The order of strings is transitive.
pub proof fn lemma_text_lt_transitive(a: Seq<char>, b: Seq<char>, c: Seq<char>)
    requires
        text_lt(a, b),
        text_lt(b, c),
    ensures
        text_lt(a, c),
    decreases a.len(),
{
    if a.len() > 0 && a[0] == b[0] && b[0] == c[0] {
        lemma_text_lt_transitive(a.drop_first(), b.drop_first(), c.drop_first());
    }
}

/// Of two texts that differ one comes before the other, and never both;
/// no text comes before itself.
pub proof fn lemma_text_lt_total(a: Seq<char>, b: Seq<char>)
    ensures
        text_lt(a, b) || text_lt(b, a) || a == b,
        !(text_lt(a, b) && text_lt(b, a)),
        !text_lt(a, a),
    decreases a.len(),
{
    if a.len() > 0 {
        lemma_text_lt_total(a.drop_first(), a.drop_first());
    }
    if a.len() > 0 && b.len() > 0 && a[0] == b[0] {
        lemma_text_lt_total(a.drop_first(), b.drop_first());
        if a.drop_first() == b.drop_first() {
            assert(a =~= seq![a[0]] + a.drop_first());
            assert(b =~= seq![b[0]] + b.drop_first());
        }
    } else if a.len() == 0 && b.len() == 0 {
        assert(a =~= b);
    }
}

/// The order of two texts is the order of what follows their common start.
proof fn lemma_text_lt_skips_common_start(a: Seq<char>, b: Seq<char>, i: int)
    requires
        0 <= i <= a.len(),
        i <= b.len(),
        a.take(i) == b.take(i),
    ensures
        text_lt(a, b) == text_lt(a.skip(i), b.skip(i)),
    decreases i,
{
    if i == 0 {
        assert(a.skip(0) =~= a);
        assert(b.skip(0) =~= b);
    } else {
        assert(a.take(i)[0] == a[0] && b.take(i)[0] == b[0]);
        assert(a.drop_first().take(i - 1) =~= a.take(i).drop_first());
        assert(b.drop_first().take(i - 1) =~= b.take(i).drop_first());
        lemma_text_lt_skips_common_start(a.drop_first(), b.drop_first(), i - 1);
        assert(a.drop_first().skip(i - 1) =~= a.skip(i));
        assert(b.drop_first().skip(i - 1) =~= b.skip(i));
    }
}

/// Whether `a` comes before `b` in the order of strings.
pub fn text_less(a: &[char], b: &[char]) -> (r: bool)
    ensures
        r == text_lt(a@, b@),
{
    let n = a.len();
    let m = b.len();
    let mut i: usize = 0;
    while i < n && i < m && a[i] == b[i]
        invariant
            i <= n,
            i <= m,
            n == a@.len(),
            m == b@.len(),
            a@.take(i as int) == b@.take(i as int),
        decreases n - i,
    {
        i += 1;
        assert(a@.take(i as int) =~= a@.take(i - 1).push(a@[i - 1]));
        assert(b@.take(i as int) =~= b@.take(i - 1).push(b@[i - 1]));
    }
    proof {
        lemma_text_lt_skips_common_start(a@, b@, i as int);
        if i < n {
            assert(a@.skip(i as int)[0] == a@[i as int]);
        }
        if i < m {
            assert(b@.skip(i as int)[0] == b@[i as int]);
        }
    }
    if i == m {
        false
    } else if i == n {
        true
    } else {
        a[i] < b[i]
    }
}

/// Whether a tag is a description.
pub fn tag_is_description(tag: &MetaTag) -> (r: bool)
    ensures
        r == is_description(*tag),
{
    (attribute_is(&tag.name, "description") || attribute_is(&tag.name, "og:description")
        || attribute_is(&tag.property, "description") || attribute_is(
        &tag.property,
        "og:description",
    )) && attribute_is_filled(&tag.content)
}

/// The descriptions of a document: the contents of the `meta` tags whose
/// name or property is `description` or `og:description` and whose content is
/// not empty; each content once, in the ascending order of strings.
pub fn get_descriptions(tags: &[MetaTag]) -> (out: Vec<String>)
    ensures
        strictly_ascending(texts_of(out@)),
        forall|text: Seq<char>| texts_of(out@).contains(text) <==> is_described(tags@, text),
{
    let mut found: Vec<Vec<char>> = Vec::new();
    let n = tags.len();
    let mut k: usize = 0;
    while k < n
        invariant
            k <= n,
            n == tags@.len(),
            strictly_ascending(views_of(found@)),
            forall|text: Seq<char>|
                views_of(found@).contains(text) <==> is_described(tags@.take(k as int), text),
        decreases n - k,
    {
        let ghost before = views_of(found@);
        let ghost seen = tags@.take(k as int);
        let ghost seen_next = tags@.take(k + 1);
        assert(seen_next.drop_last() =~= seen);
        assert(seen_next.last() == tags@[k as int]);
        if tag_is_description(&tags[k]) {
            let text = match &tags[k].content {
                Some(content) => chars_of(content.as_str()),
                None => Vec::new(),
            };
            assert(text@ == value_or_empty(tags@[k as int].content));
            let mut at: usize = 0;
            while at < found.len() && text_less(found[at].as_slice(), text.as_slice())
                invariant
                    at <= found@.len(),
                    before == views_of(found@),
                    forall|j: int| 0 <= j < at ==> text_lt(before[j], text@),
                decreases found@.len() - at,
            {
                assert(before[at as int] == found@[at as int]@);
                at += 1;
            }
            let present = at < found.len() && same_text(found[at].as_slice(), text.as_slice());
            if at < found.len() {
                assert(before[at as int] == found@[at as int]@);
            }
            if !present {
                proof {
                    assert forall|j: int| at <= j < before.len() implies text_lt(
                        text@,
                        before[j],
                    ) by {
                        lemma_text_lt_total(before[at as int], text@);
                        if j > at {
                            assert(text_lt(before[at as int], before[j]));
                            lemma_text_lt_transitive(text@, before[at as int], before[j]);
                        }
                    }
                }
                found.insert(at, text);
                let ghost after = views_of(found@);
                assert(after =~= before.insert(at as int, text@));
                assert(strictly_ascending(after)) by {
                    assert forall|i: int, j: int| 0 <= i < j < after.len() implies text_lt(
                        after[i],
                        after[j],
                    ) by {
                        if j < at {
                            assert(text_lt(before[i], before[j]));
                        } else if j == at {
                        } else if i < at {
                            assert(text_lt(before[i], before[j - 1]));
                        } else if i == at {
                        } else {
                            assert(text_lt(before[i - 1], before[j - 1]));
                        }
                    }
                }
                assert forall|t: Seq<char>| after.contains(t) <==> is_described(
                    seen_next,
                    t,
                ) by {
                    if after.contains(t) {
                        let w = choose|w: int| 0 <= w < after.len() && after[w] == t;
                        if w == at {
                            assert(is_description(seen_next[k as int]));
                        } else {
                            let v = if w < at {
                                w
                            } else {
                                w - 1
                            };
                            assert(before[v] == t);
                            assert(before.contains(t));
                            let i = choose|i: int|
                                0 <= i < seen.len() && is_description(#[trigger] seen[i])
                                    && value_or_empty(seen[i].content) == t;
                            assert(seen_next[i] == seen[i]);
                        }
                    }
                    if is_described(seen_next, t) {
                        let i = choose|i: int|
                            0 <= i < seen_next.len() && is_description(#[trigger] seen_next[i])
                                && value_or_empty(seen_next[i].content) == t;
                        if i == k {
                            assert(after[at as int] == t);
                        } else {
                            assert(seen[i] == seen_next[i]);
                            assert(is_described(seen, t));
                            assert(before.contains(t));
                            let w = choose|w: int| 0 <= w < before.len() && before[w] == t;
                            if w < at {
                                assert(after[w] == t);
                            } else {
                                assert(after[w + 1] == t);
                            }
                        }
                    }
                }
            } else {
                assert forall|t: Seq<char>| before.contains(t) <==> is_described(
                    seen_next,
                    t,
                ) by {
                    if before.contains(t) {
                        let i = choose|i: int|
                            0 <= i < seen.len() && is_description(#[trigger] seen[i])
                                && value_or_empty(seen[i].content) == t;
                        assert(seen_next[i] == seen[i]);
                    }
                    if is_described(seen_next, t) {
                        let i = choose|i: int|
                            0 <= i < seen_next.len() && is_description(#[trigger] seen_next[i])
                                && value_or_empty(seen_next[i].content) == t;
                        if i == k {
                            assert(before[at as int] == t);
                        } else {
                            assert(seen[i] == seen_next[i]);
                            assert(is_described(seen, t));
                        }
                    }
                }
            }
        } else {
            assert forall|t: Seq<char>| before.contains(t) <==> is_described(seen_next, t) by {
                if before.contains(t) {
                    let i = choose|i: int|
                        0 <= i < seen.len() && is_description(#[trigger] seen[i])
                            && value_or_empty(seen[i].content) == t;
                    assert(seen_next[i] == seen[i]);
                }
                if is_described(seen_next, t) {
                    let i = choose|i: int|
                        0 <= i < seen_next.len() && is_description(#[trigger] seen_next[i])
                            && value_or_empty(seen_next[i].content) == t;
                    assert(seen[i] == seen_next[i]);
                    assert(is_described(seen, t));
                }
            }
        }
        k += 1;
    }
    assert(tags@.take(n as int) =~= tags@);
    strings_of(&found)
}

} // verus!
