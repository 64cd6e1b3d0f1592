use html_parsing_tools::emails::get_emails;
use html_parsing_tools::meta::MetaTag;
use html_parsing_tools::meta::ScriptTag;
use html_parsing_tools::nodes::get_text_string;
use html_parsing_tools::pattern::compile;
use html_parsing_tools::sentences::get_sentences;
use html_parsing_tools::sentences::PageTexts;
use html_parsing_tools::sentences::Sentences;
use kuchiki::iter::NodeIterator;
use kuchiki::traits::TendrilSink;
use kuchiki::NodeRef;

const REMOVE_TAGS: [&str; 3] = ["script", "style", "noscript"];

const PICK_TAGS: [&str; 6] = ["h1", "h2", "h3", "h4", "h5", "h6"];

const HTML: &str = "\
    <html>
    <head>
    <meta property=\"og:title\" content=\"meta title\">
    <meta name=\"description\" content=\"meta description\">
    <meta name=\"description\" content=\"meta description\">
    <meta property=\"og:description\" content=\"meta og:description\">
    <meta property=\"og:description\">
    <meta property=\"og:description\" content=\"\">
    </head>
    <body>
    <h1>H1            header &pound;100 &#42030550023695;<br>the same H1 on a new line</h1>
    <p>p _stop_ tag</p><p>another p on the same line</p>
    <div><p>p, next should be span without leading space:</p><span>span1</span></div><div class=\"class1\"><span>span2 should be on its own</span></div>
    <div><span>span3 should be on its own</span></div>
    <p>home a/s<br>Frichsparken<br>Søren Frichs Vej 36 F<br>8230 Åbyhøj<br>CVR: 13394172<br>Telefon: 86 15 43 00<br>Email: <a href=\"mailto:homeas@home.dk\">homeas@home.dk</a></p>
    </body>
    </html>
";

fn raw_text_nodes(node: &NodeRef) -> Vec<String> {
    node.inclusive_descendants()
        .text_nodes()
        .map(|text_node| text_node.borrow().to_string())
        .collect()
}

fn take_texts(document: &NodeRef, tag: &str) -> Vec<Vec<String>> {
    let mut texts = vec![];
    for tag_node in document.select(tag).unwrap().collect::<Vec<_>>() {
        texts.push(raw_text_nodes(tag_node.as_node()));
        tag_node.as_node().detach();
    }
    texts
}

fn sentences_of(html: &str, stop_word: &str, add_text_nodes: bool, min_split: Option<i32>) -> Sentences {
    let document = kuchiki::parse_html().one(html.to_string());
    let scripts = document
        .select("script")
        .unwrap()
        .map(|node| ScriptTag {
            kind: node.attributes.borrow().get("type").map(str::to_string),
            text: get_text_string(&raw_text_nodes(node.as_node()), " "),
        })
        .collect();
    for tag in REMOVE_TAGS {
        for tag_node in document.select(tag).unwrap().collect::<Vec<_>>() {
            tag_node.as_node().detach();
        }
    }
    let stop = compile(stop_word).expect("Invalid Regex");
    let text_nodes = raw_text_nodes(&document);
    let headings = PICK_TAGS.iter().map(|tag| take_texts(&document, tag)).collect();
    let paragraphs = take_texts(&document, "p");
    let metas = document
        .select("meta")
        .unwrap()
        .map(|node| {
            let attributes = node.attributes.borrow();
            MetaTag {
                name: attributes.get("name").map(str::to_string),
                property: attributes.get("property").map(str::to_string),
                content: attributes.get("content").map(str::to_string),
            }
        })
        .collect();
    let page = PageTexts {
        scripts,
        text_nodes,
        headings,
        paragraphs,
        metas,
        rest: raw_text_nodes(&document),
    };
    get_sentences(&page, &stop, add_text_nodes, min_split)
}

#[test]
fn test_get_sentences() {
    let result = sentences_of(HTML, "_stop_", true, None);

    assert_eq!(
        result.text_nodes,
        [
            vec!["H1 header £100 �", "the same H1 on a new line"],
            vec!["p _stop_ tag", "another p on the same line"],
            vec![
                "p, next should be span without leading space: span1",
                "span2 should be on its own"
            ],
            vec!["span3 should be on its own"],
            vec![
                "home a/s",
                "Frichsparken",
                "Søren Frichs Vej 36 F",
                "8230 Åbyhøj",
                "CVR: 13394172",
                "Telefon: 86 15 43 00",
                "Email: homeas@home.dk"
            ],
        ],
    );
    assert_eq!(
        result.h[0],
        ["H1 header £100 � the same H1 on a new line"]
    );
    assert_eq!(
        result.p,
        [
            "home a/s Frichsparken Søren Frichs Vej 36 F 8230 Åbyhøj CVR: 13394172 Telefon: 86 15 43 00 Email: homeas@home.dk",
            "p, next should be span without leading space:",
            "another p on the same line",
            "p tag",
        ],
    );
    assert_eq!(
        result.other,
        [
            "span1",
            "span2 should be on its own",
            "span3 should be on its own",
        ]
    );
    assert_eq!(
        result.descriptions,
        ["meta description", "meta og:description"]
    );

    let result = sentences_of("<html><head></head></html>", "_stop_", true, None);
    assert!(result.text_nodes.is_empty());
}

#[test]
fn test_get_emails() {
    let html = "\
        <p>You can always reach out to Soren, Anders and Teffi who are responsible for the web-shop via \
        <a href=\"mailto:shop@respectresources.dk\" \
        onclick=\"return rcmail.command('compose','shop@respectresources.dk',this)\">shop@respectresources.dk</a>.</p>
        ".to_string();

    let result = get_emails(html.as_str());
    assert_eq!(
        result,
        [
            "shop@respectresources.dk",
            "shop@respectresources.dk",
            "shop@respectresources.dk",
        ]
    );
}
