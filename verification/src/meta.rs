//! What a document says of itself in its head: language, keywords, titles,
//! descriptions and linked data, read from the attributes of its tags.

use vstd::prelude::*;
use crate::text::chars_of;
use crate::text::same_text;
use crate::text::texts_of;

verus! {

/// A `meta` tag, as far as it is read: three of its attributes, each absent
/// or with its value.
pub struct MetaTag {
    pub name: Option<String>,
    pub property: Option<String>,
    pub content: Option<String>,
}

/// A `script` tag: its `type` attribute and its text.
pub struct ScriptTag {
    pub kind: Option<String>,
    pub text: String,
}

/// The titles that a document gives itself.
pub struct MetaTitles {
    /// The content of the last `twitter:title`.
    pub twitter_title: Option<String>,
    /// The content of the last `og:title`.
    pub og_title: Option<String>,
    /// The text of the last `title` element.
    pub title: Option<String>,
}

/// The value of an attribute, or the empty text where it is absent.
pub open spec fn value_or_empty(attribute: Option<String>) -> Seq<char> {
    match attribute {
        Some(value) => value@,
        None => Seq::empty(),
    }
}

/// The text of an optional string.
pub open spec fn text_of(value: Option<String>) -> Option<Seq<char>> {
    match value {
        Some(text) => Some(text@),
        None => None,
    }
}

/// The first of the values, or the empty text where there is none or the
/// first is absent.
pub open spec fn first_value(values: Seq<Option<String>>) -> Seq<char> {
    if values.len() == 0 {
        Seq::empty()
    } else {
        value_or_empty(values[0])
    }
}

/// The tag names keywords that are not empty.
pub open spec fn has_keywords(tag: MetaTag) -> bool {
    value_or_empty(tag.name) == "keywords"@ && value_or_empty(tag.content).len() > 0
}

/// The keywords of the first tag that has some.
pub open spec fn first_keywords(tags: Seq<MetaTag>) -> Option<Seq<char>>
    decreases tags.len(),
{
    if tags.len() == 0 {
        None
    } else if has_keywords(tags.first()) {
        Some(value_or_empty(tags.first().content))
    } else {
        first_keywords(tags.drop_first())
    }
}

/// The tag gives a title under the name `key`: its content is not empty.
pub open spec fn gives_title(tag: MetaTag, key: Seq<char>) -> bool {
    value_or_empty(tag.name) == key && value_or_empty(tag.content).len() > 0
}

/// The title that the last tag of the name `key` gives.
pub open spec fn last_title(tags: Seq<MetaTag>, key: Seq<char>) -> Option<Seq<char>>
    decreases tags.len(),
{
    if tags.len() == 0 {
        None
    } else if gives_title(tags.last(), key) {
        Some(value_or_empty(tags.last().content))
    } else {
        last_title(tags.drop_last(), key)
    }
}

/// The last of the texts, where there is one.
pub open spec fn last_text(texts: Seq<Seq<char>>) -> Option<Seq<char>> {
    if texts.len() == 0 {
        None
    } else {
        Some(texts.last())
    }
}

/// The script holds linked data.
pub open spec fn is_linked_data(script: ScriptTag) -> bool {
    value_or_empty(script.kind) == "application/ld+json"@
}

/// The texts of the scripts that hold linked data, in their order.
pub open spec fn linked_data(scripts: Seq<ScriptTag>) -> Seq<Seq<char>>
    decreases scripts.len(),
{
    if scripts.len() == 0 {
        Seq::empty()
    } else if is_linked_data(scripts.last()) {
        linked_data(scripts.drop_last()).push(scripts.last().text@)
    } else {
        linked_data(scripts.drop_last())
    }
}

/// Whether an attribute has the value `literal`, an absent one counting as
/// the empty text.
pub fn attribute_is(attribute: &Option<String>, literal: &str) -> (r: bool)
    ensures
        r == (value_or_empty(*attribute) == literal@),
{
    let wanted = chars_of(literal);
    match attribute {
        Some(value) => {
            let given = chars_of(value.as_str());
            same_text(given.as_slice(), wanted.as_slice())
        },
        None => {
            assert(wanted@.len() == 0 <==> wanted@ =~= Seq::<char>::empty());
            wanted.len() == 0
        },
    }
}

/// The value of an attribute, or the empty string where it is absent.
pub fn attribute_or_empty(attribute: &Option<String>) -> (out: String)
    ensures
        out@ == value_or_empty(*attribute),
{
    match attribute {
        Some(value) => value.clone(),
        None => String::new(),
    }
}

/// Whether an attribute is present with a value that is not empty.
pub fn attribute_is_filled(attribute: &Option<String>) -> (r: bool)
    ensures
        r == (value_or_empty(*attribute).len() > 0),
{
    match attribute {
        Some(value) => !value.as_str().is_empty(),
        None => false,
    }
}

/// The language of a document: the `lang` attribute of its first `html`
/// element, given the attribute of each such element; empty where there is
/// no element or no attribute.
pub fn get_lang_internal(html_langs: &[Option<String>]) -> (lang: String)
    ensures
        lang@ == first_value(html_langs@),
{
    if html_langs.len() == 0 {
        String::new()
    } else {
        attribute_or_empty(&html_langs[0])
    }
}

/// The value of an attribute on the first of some tags, given the attribute
/// of each; empty where there is no tag or no attribute.
pub fn tag_attribute(values: &[Option<String>]) -> (value: String)
    ensures
        value@ == first_value(values@),
{
    get_lang_internal(values)
}

/// The keywords of a document: the content of the first `meta` tag of the
/// name `keywords` whose content is not empty.
pub fn get_keywords(tags: &[MetaTag]) -> (keywords: Option<String>)
    ensures
        text_of(keywords) == first_keywords(tags@),
{
    let n = tags.len();
    let mut i: usize = 0;
    assert(tags@.skip(0) =~= tags@);
    while i < n
        invariant
            i <= n,
            n == tags@.len(),
            first_keywords(tags@) == first_keywords(tags@.skip(i as int)),
        decreases n - i,
    {
        let ghost rest = tags@.skip(i as int);
        assert(rest.first() == tags@[i as int]);
        assert(rest.drop_first() =~= tags@.skip(i + 1));
        if attribute_is(&tags[i].name, "keywords") && attribute_is_filled(&tags[i].content) {
            return Some(attribute_or_empty(&tags[i].content));
        }
        i += 1;
    }
    assert(tags@.skip(n as int) =~= Seq::<MetaTag>::empty());
    None
}

/// The title that the last tag of the name `key` gives.
fn find_last_title(tags: &[MetaTag], key: &str) -> (title: Option<String>)
    ensures
        text_of(title) == last_title(tags@, key@),
{
    let mut i: usize = tags.len();
    assert(tags@.take(tags@.len() as int) =~= tags@);
    while i > 0
        invariant
            i <= tags@.len(),
            last_title(tags@, key@) == last_title(tags@.take(i as int), key@),
        decreases i,
    {
        let ghost head = tags@.take(i as int);
        assert(head.last() == tags@[i - 1]);
        assert(head.drop_last() =~= tags@.take(i - 1));
        if attribute_is(&tags[i - 1].name, key) && attribute_is_filled(&tags[i - 1].content) {
            return Some(attribute_or_empty(&tags[i - 1].content));
        }
        i -= 1;
    }
    assert(tags@.take(0) =~= Seq::<MetaTag>::empty());
    None
}

/// The titles of a document: under each of the names `twitter:title` and
/// `og:title` the content of the last `meta` tag of that name whose content
/// is not empty, and the text of the last `title` element.
pub fn get_meta_titles(tags: &[MetaTag], titles: &[String]) -> (found: MetaTitles)
    ensures
        text_of(found.twitter_title) == last_title(tags@, "twitter:title"@),
        text_of(found.og_title) == last_title(tags@, "og:title"@),
        text_of(found.title) == last_text(texts_of(titles@)),
{
    let title = if titles.len() == 0 {
        None
    } else {
        Some(titles[titles.len() - 1].clone())
    };
    MetaTitles {
        twitter_title: find_last_title(tags, "twitter:title"),
        og_title: find_last_title(tags, "og:title"),
        title,
    }
}

/// The linked data of a document: the texts of the scripts of the type
/// `application/ld+json`, in their order.
pub fn get_json_ld(scripts: &[ScriptTag]) -> (data: Vec<String>)
    ensures
        texts_of(data@) == linked_data(scripts@),
{
    let mut data: Vec<String> = Vec::new();
    let n = scripts.len();
    let mut i: usize = 0;
    while i < n
        invariant
            i <= n,
            n == scripts@.len(),
            texts_of(data@) == linked_data(scripts@.take(i as int)),
        decreases n - i,
    {
        proof {
            assert(scripts@.take(i + 1).drop_last() =~= scripts@.take(i as int));
            assert(scripts@.take(i + 1).last() == scripts@[i as int]);
        }
        if attribute_is(&scripts[i].kind, "application/ld+json") {
            let text = scripts[i].text.clone();
            let ghost before = texts_of(data@);
            data.push(text);
            assert(texts_of(data@) =~= before.push(text@));
        }
        i += 1;
    }
    assert(scripts@.take(n as int) =~= scripts@);
    data
}

} // verus!
