use html_parsing_tools::cleanup::count_words;
use html_parsing_tools::punctuation::classify;
use html_parsing_tools::punctuation::classify_in_category;
use html_parsing_tools::punctuation::is_tied;
use html_parsing_tools::punctuation::is_tied_in_classes;
use html_parsing_tools::punctuation::BracketCategory;
use html_parsing_tools::punctuation::PunctuationClass;
use html_parsing_tools::splitter::split_at_delimiters;
use html_parsing_tools::text::char_is_space_separator;
use html_parsing_tools::text::char_is_white_space;
use html_parsing_tools::text::chars_of;
use html_parsing_tools::text::is_blank_text;
use html_parsing_tools::text::split_words;
use html_parsing_tools::text::string_of;
use html_parsing_tools::text::trim;
use html_parsing_tools::tokens::read_tokens;
use html_parsing_tools::tokens::separate_line_breakers;
use html_parsing_tools::tokens::token_strings;
use html_parsing_tools::tokens::tokenize;
use html_parsing_tools::tokens::Token;
use regex::Regex;
use unicode_general_category::get_general_category;
use unicode_general_category::GeneralCategory;

fn every_char() -> Vec<char> {
    (0u32..=0x10ffff).filter_map(char::from_u32).collect()
}

fn text(chars: &[char]) -> String {
    chars.iter().collect()
}

const SAMPLES: [&str; 14] = [
    "",
    " ",
    "about | hello | world",
    "a - b",
    "a -- b",
    "- -",
    "a-b",
    "x\u{a0}-y",
    "x-\u{3000}y|",
    "||",
    " - - ",
    "tab\t-here",
    "Vinissimus: Comprar vino online - Venta de vinos",
    "one\u{2003}- two -\u{2003}three",
];

#[test]
fn white_space_is_what_the_standard_library_says() {
    for c in every_char() {
        assert_eq!(char_is_white_space(c), c.is_whitespace(), "{:?}", c);
    }
}

#[test]
fn space_separators_are_the_category_zs() {
    for c in every_char() {
        assert_eq!(
            char_is_space_separator(c),
            get_general_category(c) == GeneralCategory::SpaceSeparator,
            "{:?}",
            c
        );
    }
}

#[test]
fn space_separators_are_what_the_expression_engine_matches() {
    let zs = Regex::new(r"\p{Zs}").unwrap();
    let mut all = String::new();
    for c in every_char() {
        assert_eq!(zs.is_match(c.encode_utf8(&mut [0; 4])), char_is_space_separator(c), "{:?}", c);
        if char_is_space_separator(c) {
            all.push(c);
        }
    }
    assert_eq!(zs.find_iter(&all).count(), 17);
}

#[test]
fn trim_is_the_trim_of_the_standard_library() {
    for sample in [
        "",
        " ",
        "a",
        "  a  ",
        "\n\ta b \r\n",
        "\u{a0}x\u{3000}",
        "\u{2028}\u{2029}",
        "x \u{85}",
    ] {
        let got = text(&trim(&chars_of(sample)));
        assert_eq!(got, sample.trim(), "{:?}", sample);
        assert_eq!(is_blank_text(&chars_of(sample)), sample.trim().is_empty());
    }
}

#[test]
fn words_are_the_white_space_split_of_the_standard_library() {
    for sample in ["", "  ", "a", " a  b\tc\n", "\u{a0}x\u{3000}y z", "Polina \n\r\n\t  Voroshilova\t"] {
        let got: Vec<String> = split_words(&chars_of(sample)).iter().map(|w| text(w)).collect();
        let want: Vec<String> = sample.split_whitespace().map(|w| w.to_string()).collect();
        assert_eq!(got, want, "{:?}", sample);
    }
}

#[test]
fn parts_are_what_the_delimiter_expression_splits() {
    let delimiter = Regex::new(r"\||\p{Zs}\-|\-\p{Zs}").unwrap();
    for sample in SAMPLES {
        let got: Vec<String> =
            split_at_delimiters(&chars_of(sample)).iter().map(|p| text(p)).collect();
        let want: Vec<String> = delimiter.split(sample).map(|p| p.to_string()).collect();
        assert_eq!(got, want, "{:?}", sample);
    }
}

#[test]
fn tokens_are_what_the_line_expression_finds() {
    let lines = Regex::new("\n|[^\n]+").unwrap();
    for sample in ["", "a", "\n", "a\nb", "\n\na\n", "Hello\n\rWorld\n\n", " \r x", "\r\n\r\n"] {
        let got = separate_line_breakers(&[sample.to_string()]);
        let normal = sample.replace('\r', "\n");
        let want: Vec<String> = lines.find_iter(&normal).map(|m| m.as_str().to_string()).collect();
        assert_eq!(got, want, "{:?}", sample);
        assert_eq!(got.concat(), normal);
        assert!(got.iter().all(|t| !t.is_empty()));
    }
}

#[test]
fn strings_and_characters_convert_both_ways() {
    assert_eq!(chars_of("añ…"), vec!['a', 'ñ', '…']);
    assert_eq!(string_of(&['a', 'ñ', '…']), "añ…");
    assert_eq!(string_of(&[]), "");
}

#[test]
fn brackets_and_quotes_are_classified_by_category() {
    assert_eq!(classify('('), PunctuationClass::OpenLike);
    assert_eq!(classify('['), PunctuationClass::OpenLike);
    assert_eq!(classify('«'), PunctuationClass::OpenLike);
    assert_eq!(classify('“'), PunctuationClass::OpenLike);
    assert_eq!(classify(')'), PunctuationClass::CloseLike);
    assert_eq!(classify('»'), PunctuationClass::CloseLike);
    assert_eq!(classify('”'), PunctuationClass::CloseLike);
    assert_eq!(classify('a'), PunctuationClass::Other);
    assert_eq!(classify(' '), PunctuationClass::Other);
    assert_eq!(classify('-'), PunctuationClass::Other);
}

#[test]
fn marks_are_classified_by_the_fixed_sets() {
    for c in ['¡', '¿'] {
        assert_eq!(classify(c), PunctuationClass::OpenLike);
        assert_eq!(classify_in_category(c, BracketCategory::Other), PunctuationClass::OpenLike);
    }
    for c in ['.', ',', ';', ':', '!', '?', '…'] {
        assert_eq!(classify(c), PunctuationClass::CloseLike);
        assert_eq!(classify_in_category(c, BracketCategory::Other), PunctuationClass::CloseLike);
    }
    assert_eq!(classify_in_category('x', BracketCategory::Initial), PunctuationClass::OpenLike);
    assert_eq!(classify_in_category('x', BracketCategory::Open), PunctuationClass::OpenLike);
    assert_eq!(classify_in_category('x', BracketCategory::Final), PunctuationClass::CloseLike);
    assert_eq!(classify_in_category('x', BracketCategory::Close), PunctuationClass::CloseLike);
    assert_eq!(classify_in_category('x', BracketCategory::Other), PunctuationClass::Other);
    assert_eq!(classify_in_category('¡', BracketCategory::Close), PunctuationClass::OpenLike);
}

#[test]
fn the_classification_agrees_with_the_category_tables() {
    for c in every_char() {
        let category = get_general_category(c);
        let opens = category == GeneralCategory::InitialPunctuation
            || category == GeneralCategory::OpenPunctuation
            || ['¡', '¿'].contains(&c);
        let closes = category == GeneralCategory::FinalPunctuation
            || category == GeneralCategory::ClosePunctuation
            || ['.', ',', ';', ':', '!', '?', '…'].contains(&c);
        let want = if opens {
            PunctuationClass::OpenLike
        } else if closes {
            PunctuationClass::CloseLike
        } else {
            PunctuationClass::Other
        };
        assert_eq!(classify(c), want, "{:?}", c);
    }
}

#[test]
fn lines_are_tied_by_the_characters_that_meet() {
    assert!(is_tied(' ', 'a'));
    assert!(is_tied('a', ' '));
    assert!(is_tied('a', '\n'));
    assert!(is_tied('(', 'a'));
    assert!(is_tied('a', ')'));
    assert!(is_tied(',', 'a'));
    assert!(is_tied(':', 'a'));
    assert!(is_tied('¿', 'a'));
    assert!(is_tied('a', '.'));
    assert!(is_tied('a', '…'));
    assert!(!is_tied('a', 'b'));
    assert!(!is_tied('.', 'a'));
    assert!(!is_tied(')', 'a'));
    assert!(!is_tied('a', '('));
    assert!(!is_tied('a', '¿'));
    assert!(is_tied_in_classes('a', 'b', PunctuationClass::OpenLike, PunctuationClass::Other));
    assert!(is_tied_in_classes('a', 'b', PunctuationClass::Other, PunctuationClass::CloseLike));
    assert!(!is_tied_in_classes('a', 'b', PunctuationClass::CloseLike, PunctuationClass::OpenLike));
    assert!(!is_tied_in_classes('a', 'b', PunctuationClass::Other, PunctuationClass::Other));
}

#[test]
fn words_are_counted_by_their_ascii_starts() {
    assert_eq!(count_words(""), 0);
    assert_eq!(count_words(" "), 1);
    assert_eq!(count_words("a"), 1);
    assert_eq!(count_words("a b"), 2);
    assert_eq!(count_words("a  b"), 2);
    assert_eq!(count_words("home a/s"), 2);
    assert_eq!(count_words("one two\tthree\nfour"), 4);
    assert_eq!(count_words("a ñandú b"), 2);
    assert_eq!(count_words("ñ ñ ñ"), 1);
    assert_eq!(count_words(" a"), 2);
    assert_eq!(count_words("a\u{a0}b"), 1);
    assert_eq!(count_words("a ! 1 ~"), 4);
    assert_eq!(count_words("p, next should be span without leading space:"), 8);
}

#[test]
fn tokens_are_breaks_and_lines() {
    let tokens = tokenize(&["".to_string(), " a\r\nb ".to_string(), "\n".to_string()]);
    let kinds: Vec<Option<String>> = tokens
        .iter()
        .map(|token| match token {
            Token::Break => None,
            Token::Line(line) => Some(text(line)),
        })
        .collect();
    assert_eq!(
        kinds,
        vec![Some(" a".to_string()), None, None, Some("b ".to_string()), None]
    );
    assert_eq!(token_strings(&tokens), vec![" a", "\n", "\n", "b ", "\n"]);
    assert!(tokens[1].is_break());
    assert!(!tokens[0].is_break());
    let read = read_tokens(&["\n".to_string(), "a\nb".to_string(), "".to_string()]);
    assert!(matches!(read[0], Token::Break));
    assert!(matches!(&read[1], Token::Line(line) if text(line) == "a\nb"));
    assert!(matches!(&read[2], Token::Line(line) if line.is_empty()));
    assert!(Token::Line(vec!['\n']).is_break());
    assert!(!Token::Line(vec!['\n', '\n']).is_break());
}
