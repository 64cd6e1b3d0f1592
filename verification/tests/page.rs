use html_parsing_tools::descriptions::get_descriptions;
use html_parsing_tools::descriptions::text_less;
use html_parsing_tools::emails::get_emails;
use html_parsing_tools::emails::strip_quotes;
use html_parsing_tools::links::get_href_attributes;
use html_parsing_tools::links::get_links;
use html_parsing_tools::links::get_rel_alternate;
use html_parsing_tools::links::Anchor;
use html_parsing_tools::links::LinkTag;
use html_parsing_tools::meta::attribute_is;
use html_parsing_tools::meta::get_json_ld;
use html_parsing_tools::meta::get_keywords;
use html_parsing_tools::meta::get_lang_internal;
use html_parsing_tools::meta::get_meta_titles;
use html_parsing_tools::meta::tag_attribute;
use html_parsing_tools::meta::MetaTag;
use html_parsing_tools::meta::ScriptTag;
use html_parsing_tools::names::name_entries;
use html_parsing_tools::names::parse_name;
use html_parsing_tools::names::NameParts;
use html_parsing_tools::nodes::get_text_and_remove;
use html_parsing_tools::nodes::get_text_nodes;
use html_parsing_tools::nodes::get_text_string;
use html_parsing_tools::nodes::looks_like_markup;
use html_parsing_tools::nodes::trim_punctuation;
use html_parsing_tools::nodes::trim_whitespace;
use html_parsing_tools::palette::colour_triples;
use html_parsing_tools::paragraphs::select_paragraphs;
use html_parsing_tools::text::chars_of;

fn owned(texts: &[&str]) -> Vec<String> {
    texts.iter().map(|s| s.to_string()).collect()
}

fn some(text: &str) -> Option<String> {
    Some(text.to_string())
}

fn meta(name: Option<&str>, property: Option<&str>, content: Option<&str>) -> MetaTag {
    MetaTag {
        name: name.map(str::to_string),
        property: property.map(str::to_string),
        content: content.map(str::to_string),
    }
}

fn link(rel: Option<&str>, hreflang: Option<&str>, href: Option<&str>) -> LinkTag {
    LinkTag {
        rel: rel.map(str::to_string),
        hreflang: hreflang.map(str::to_string),
        href: href.map(str::to_string),
    }
}

#[test]
fn a_final_full_stop_or_comma_is_dropped() {
    assert_eq!(trim_punctuation("a."), "a");
    assert_eq!(trim_punctuation("a,"), "a");
    assert_eq!(trim_punctuation("a.."), "a.");
    assert_eq!(trim_punctuation("a;"), "a;");
    assert_eq!(trim_punctuation("."), "");
    assert_eq!(trim_punctuation(""), "");
    assert_eq!(trim_punctuation("a. "), "a. ");
}

#[test]
fn white_space_is_collapsed_and_the_final_mark_dropped() {
    assert_eq!(trim_whitespace("  a \n b\t c. "), "a b c");
    assert_eq!(trim_whitespace("a ,"), "a ");
    assert_eq!(trim_whitespace("   "), "");
    assert_eq!(trim_whitespace(""), "");
    assert_eq!(trim_whitespace(" . "), "");
    assert_eq!(trim_whitespace("H1            header"), "H1 header");
}

#[test]
fn leftover_markup_is_told_by_its_brackets() {
    assert!(looks_like_markup(&chars_of("<b>x</b>")));
    assert!(looks_like_markup(&chars_of("<br/>")));
    assert!(looks_like_markup(&chars_of("a/> <")));
    assert!(!looks_like_markup(&chars_of("<b>")));
    assert!(!looks_like_markup(&chars_of("a < b > c")));
    assert!(!looks_like_markup(&chars_of("</")));
    assert!(!looks_like_markup(&chars_of("plain")));
}

#[test]
fn the_texts_of_nodes_are_trimmed_and_filtered() {
    let raw = owned(&["  a ", "", " \n ", "<i>x</i>", "b", " <br/> ", "a < b"]);
    assert_eq!(get_text_nodes(&raw), owned(&["a", "b", "a < b"]));
    assert_eq!(get_text_string(&raw, " "), "a b a < b");
    assert_eq!(get_text_string(&raw, ", "), "a, b, a < b");
    assert_eq!(get_text_string(&raw, ""), "aba < b");
    assert_eq!(get_text_string(&[], " "), "");
    assert_eq!(get_text_string(&owned(&[" x "]), "--"), "x");
    assert_eq!(
        get_text_and_remove(&[
            owned(&["H1   header", "\n", "new  line."]),
            owned(&[" ", "\n"]),
            owned(&["."]),
            owned(&["p,"]),
        ]),
        owned(&["H1 header new line", "p"])
    );
}

#[test]
fn paragraphs_are_ranked_by_their_words() {
    let paragraphs = owned(&[
        "p tag",
        "one two three",
        "another p on the same line",
        "a b c",
        "x",
        "one two three four five six seven",
        "d e f",
    ]);
    assert_eq!(
        select_paragraphs(&paragraphs),
        owned(&[
            "one two three four five six seven",
            "another p on the same line",
            "one two three",
            "a b c",
            "d e f",
        ])
    );
    assert_eq!(select_paragraphs(&[]), Vec::<String>::new());
    assert_eq!(select_paragraphs(&owned(&["a b", "c"])), Vec::<String>::new());
}

#[test]
fn the_language_is_that_of_the_first_element() {
    assert_eq!(get_lang_internal(&[]), "");
    assert_eq!(get_lang_internal(&[None]), "");
    assert_eq!(get_lang_internal(&[some("da"), some("en")]), "da");
    assert_eq!(get_lang_internal(&[None, some("en")]), "");
    assert_eq!(tag_attribute(&[some("x")]), "x");
    assert_eq!(tag_attribute(&[]), "");
    assert!(attribute_is(&None, ""));
    assert!(attribute_is(&some(""), ""));
    assert!(attribute_is(&some("a"), "a"));
    assert!(!attribute_is(&None, "a"));
    assert!(!attribute_is(&some("A"), "a"));
}

#[test]
fn keywords_are_the_first_that_are_not_empty() {
    assert_eq!(get_keywords(&[]), None);
    assert_eq!(
        get_keywords(&[
            meta(Some("description"), None, Some("d")),
            meta(Some("keywords"), None, None),
            meta(Some("keywords"), None, Some("")),
            meta(None, Some("keywords"), Some("by property")),
            meta(Some("keywords"), None, Some("wine, spain")),
            meta(Some("keywords"), None, Some("later")),
        ]),
        some("wine, spain")
    );
    assert_eq!(get_keywords(&[meta(Some("Keywords"), None, Some("x"))]), None);
}

#[test]
fn titles_are_the_last_of_each_name() {
    let tags = [
        meta(Some("og:title"), None, Some("first")),
        meta(Some("twitter:title"), None, Some("tweet")),
        meta(Some("og:title"), None, Some("second")),
        meta(Some("og:title"), None, Some("")),
        meta(Some("og:title"), None, None),
        meta(None, Some("og:title"), Some("by property")),
        meta(Some("title"), None, Some("no title tag")),
    ];
    let found = get_meta_titles(&tags, &owned(&["one", "two"]));
    assert_eq!(found.og_title, some("second"));
    assert_eq!(found.twitter_title, some("tweet"));
    assert_eq!(found.title, some("two"));
    let found = get_meta_titles(&[], &[]);
    assert_eq!(found.og_title, None);
    assert_eq!(found.twitter_title, None);
    assert_eq!(found.title, None);
    let found = get_meta_titles(&[], &owned(&["x", ""]));
    assert_eq!(found.title, some(""));
}

#[test]
fn linked_data_is_read_from_the_scripts_of_its_type() {
    let scripts = [
        ScriptTag { kind: some("text/javascript"), text: "a()".to_string() },
        ScriptTag { kind: some("application/ld+json"), text: "{\"a\": 1}".to_string() },
        ScriptTag { kind: None, text: "b()".to_string() },
        ScriptTag { kind: some("application/ld+json"), text: "".to_string() },
    ];
    assert_eq!(get_json_ld(&scripts), owned(&["{\"a\": 1}", ""]));
    assert_eq!(get_json_ld(&[]), Vec::<String>::new());
}

#[test]
fn descriptions_are_distinct_and_ascending() {
    let tags = [
        meta(None, Some("og:title"), Some("meta title")),
        meta(Some("description"), None, Some("meta description")),
        meta(Some("description"), None, Some("meta description")),
        meta(None, Some("og:description"), Some("meta og:description")),
        meta(None, Some("og:description"), None),
        meta(None, Some("og:description"), Some("")),
        meta(Some("og:description"), None, Some("Zebra")),
        meta(None, Some("description"), Some("meta")),
        meta(Some("keywords"), Some("description"), Some("ñu")),
        meta(Some("other"), None, Some("aaa")),
    ];
    assert_eq!(
        get_descriptions(&tags),
        owned(&["Zebra", "meta", "meta description", "meta og:description", "ñu"])
    );
    assert_eq!(get_descriptions(&[]), Vec::<String>::new());
}

#[test]
fn the_order_of_texts_is_the_order_of_strings() {
    let samples = ["", "a", "ab", "b", "B", "aa", "z", "é", "zz", "\u{10000}", "\u{ffff}", "a\u{0}"];
    for a in samples {
        for b in samples {
            assert_eq!(text_less(&chars_of(a), &chars_of(b)), a < b, "{:?} {:?}", a, b);
        }
    }
}

#[test]
fn alternate_versions_are_gathered_by_language() {
    let links = [
        link(Some("stylesheet"), Some("en"), Some("style.css")),
        link(Some("alternate"), Some("en"), Some("/en")),
        link(Some("alternate"), Some("da"), Some("/da")),
        link(Some("alternate"), None, Some("/none")),
        link(Some("alternate"), Some(""), Some("/empty")),
        link(Some("alternate"), Some("en"), None),
        link(None, Some("fr"), Some("/fr")),
        link(Some("alternate"), Some("en"), Some("/en-2")),
    ];
    let mut found: Vec<(String, Vec<String>)> = get_rel_alternate(&links)
        .into_iter()
        .map(|entry| (entry.hreflang, entry.hrefs))
        .collect();
    found.sort();
    assert_eq!(
        found,
        vec![
            ("da".to_string(), owned(&["/da"])),
            ("en".to_string(), owned(&["/en", "", "/en-2"])),
        ]
    );
    assert!(get_rel_alternate(&[]).is_empty());
}

#[test]
fn anchors_give_their_targets_and_texts() {
    assert_eq!(
        get_href_attributes(&[some("/a"), None, some("")]),
        owned(&["/a", "", ""])
    );
    assert_eq!(
        get_links(&[
            Anchor { href: some("/a"), text: "A".to_string() },
            Anchor { href: None, text: "B".to_string() },
        ]),
        vec![("/a".to_string(), "A".to_string()), ("".to_string(), "B".to_string())]
    );
}

#[test]
fn apostrophes_are_stripped_around_an_address() {
    assert_eq!(strip_quotes(&chars_of("'a@b.dk'")), chars_of("a@b.dk"));
    assert_eq!(strip_quotes(&chars_of("''a'b'''")), chars_of("a'b"));
    assert_eq!(strip_quotes(&chars_of("a")), chars_of("a"));
    assert_eq!(strip_quotes(&chars_of("''")), chars_of(""));
    assert_eq!(strip_quotes(&chars_of("")), chars_of(""));
    assert_eq!(get_emails("write to 'a@b.dk' or c@d.org, not e@localhost"), owned(&["a@b.dk", "c@d.org"]));
    assert_eq!(get_emails("no address, http://example.org"), Vec::<String>::new());
}

#[test]
fn a_name_gives_an_entry_for_each_part() {
    let pairs = |entries: Vec<(String, String)>| -> Vec<(String, String)> { entries };
    assert_eq!(
        pairs(parse_name("Jane Doe")),
        vec![
            ("given_name".to_string(), "Jane".to_string()),
            ("surname".to_string(), "Doe".to_string()),
        ]
    );
    assert_eq!(
        pairs(parse_name("Dr. James Tiberius Kirk Jr.")),
        vec![
            ("given_name".to_string(), "James".to_string()),
            ("generational_suffix".to_string(), "Jr.".to_string()),
            ("honorific_prefix".to_string(), "Dr.".to_string()),
            ("middle_initials".to_string(), "T".to_string()),
            ("middle_name".to_string(), "Tiberius".to_string()),
            ("surname".to_string(), "Kirk".to_string()),
        ]
    );
    assert_eq!(pairs(parse_name("")), vec![]);
    let parts = NameParts {
        given_name: None,
        generational_suffix: some("III"),
        honorific_prefix: None,
        honorific_suffix: some("PhD"),
        middle_initials: None,
        middle_name: None,
        surname: "Poe".to_string(),
    };
    assert_eq!(
        name_entries(&parts),
        vec![
            ("generational_suffix".to_string(), "III".to_string()),
            ("honorific_suffix".to_string(), "PhD".to_string()),
            ("surname".to_string(), "Poe".to_string()),
        ]
    );
}

#[test]
fn channel_values_are_cut_into_colours() {
    assert_eq!(colour_triples(&[]), Vec::<Vec<u8>>::new());
    assert_eq!(colour_triples(&[1, 2]), Vec::<Vec<u8>>::new());
    assert_eq!(colour_triples(&[1, 2, 3]), vec![vec![1, 2, 3]]);
    assert_eq!(colour_triples(&[1, 2, 3, 4, 5, 6, 7]), vec![vec![1, 2, 3], vec![4, 5, 6]]);
}
