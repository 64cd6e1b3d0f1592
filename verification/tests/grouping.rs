use html_parsing_tools::cleanup::apply;
use html_parsing_tools::cleanup::clean;
use html_parsing_tools::cleanup::contains_char;
use html_parsing_tools::cleanup::contains_run;
use html_parsing_tools::cleanup::is_worth_keeping;
use html_parsing_tools::grouper::group_and_segment;
use html_parsing_tools::grouper::group_text_nodes;
use html_parsing_tools::grouper::line_survives;
use html_parsing_tools::joiner::dot_word_expression;
use html_parsing_tools::joiner::gap_is_closed;
use html_parsing_tools::joiner::join_sentences;
use html_parsing_tools::lexicon::decide_keeps_dot;
use html_parsing_tools::lexicon::is_country_code_text;
use html_parsing_tools::lexicon::is_fixed_abbreviation_text;
use html_parsing_tools::lexicon::is_numeric_text;
use html_parsing_tools::lexicon::word_keeps_dot;
use html_parsing_tools::pattern::compile;
use html_parsing_tools::pattern::find_group;
use html_parsing_tools::pattern::remove_matches;
use html_parsing_tools::pattern::PatternError;
use html_parsing_tools::punctuation::PunctuationClass;
use html_parsing_tools::regroup::regroup_node;
use html_parsing_tools::splitter::split_by_words;
use html_parsing_tools::splitter::split_sentence;
use html_parsing_tools::text::chars_of;
use html_parsing_tools::text::lowercase;
use html_parsing_tools::text::same_text;
use html_parsing_tools::threshold::select_min_split;
use html_parsing_tools::threshold::sort_ascending;

fn strings(texts: &[&str]) -> Vec<String> {
    texts.iter().map(|s| s.to_string()).collect()
}

fn groups(expected: &[&[&str]]) -> Vec<Vec<String>> {
    expected.iter().map(|g| strings(g)).collect()
}

#[test]
fn runs_of_one_length_give_that_length() {
    assert_eq!(select_min_split(&strings(&["a", "\n", "b"])), 1);
    assert_eq!(select_min_split(&strings(&["a", "\n", "\n", "\n", "b"])), 3);
    assert_eq!(
        select_min_split(&strings(&["a", "\n", "\n", "b", "\n", "\n", "c", "\n", "\n", "d"])),
        2
    );
    let mut five = vec!["a"];
    for _ in 0..4 {
        five.extend(["\n", "\n", "\n", "\n", "\n", "x"]);
    }
    assert_eq!(select_min_split(&strings(&five)), 5);
}

#[test]
fn the_threshold_is_the_median_raised_where_a_run_is_longer() {
    // runs 1, 2, 3: the median is 2 and 3 is longer
    assert_eq!(
        select_min_split(&strings(&["a", "\n", "b", "\n", "\n", "c", "\n", "\n", "\n", "d"])),
        3
    );
    // runs 3, 1, 2 in another order give the same
    assert_eq!(
        select_min_split(&strings(&["a", "\n", "\n", "\n", "b", "\n", "c", "\n", "\n", "d"])),
        3
    );
    // runs 1, 1, 5: the median is 1 and 5 is longer
    assert_eq!(
        select_min_split(&strings(&[
            "a", "\n", "b", "\n", "c", "\n", "\n", "\n", "\n", "\n", "d"
        ])),
        2
    );
    // runs 2, 4: the element at index 1 of the order is 4, and none is longer
    assert_eq!(
        select_min_split(&strings(&["a", "\n", "\n", "b", "\n", "\n", "\n", "\n", "c"])),
        4
    );
    // runs 4, 2
    assert_eq!(
        select_min_split(&strings(&["a", "\n", "\n", "\n", "\n", "b", "\n", "\n", "c"])),
        4
    );
}

#[test]
fn blank_lines_neither_start_nor_end_a_run() {
    assert_eq!(select_min_split(&strings(&["a", "\n", " ", "\n", "b"])), 2);
    assert_eq!(select_min_split(&strings(&[" ", "\n", "\n", "a", "\n", "b"])), 1);
    assert_eq!(select_min_split(&strings(&["a", "\t", "b"])), 1);
    assert_eq!(select_min_split(&strings(&[" ", "\n", " "])), 1);
}

#[test]
fn sorting_puts_runs_in_ascending_order() {
    assert_eq!(sort_ascending(&vec![3, 1, 2, 1, 5, 0]), vec![0, 1, 1, 2, 3, 5]);
    assert_eq!(sort_ascending(&vec![]), Vec::<usize>::new());
    assert_eq!(sort_ascending(&vec![7]), vec![7]);
    assert_eq!(sort_ascending(&vec![2, 2, 1]), vec![1, 2, 2]);
}

#[test]
fn no_fragment_gives_no_result() {
    assert_eq!(group_text_nodes(&[], None), None);
    assert_eq!(group_text_nodes(&[], Some(3)), None);
    assert_eq!(group_and_segment(&[], Some(0), None), None);
}

#[test]
fn fragments_without_lines_give_no_group() {
    let empty: Vec<Vec<String>> = vec![];
    assert_eq!(group_text_nodes(&strings(&[""]), None), Some(empty.clone()));
    assert_eq!(group_text_nodes(&strings(&[" ", "\n", "\t"]), None), Some(empty.clone()));
    assert_eq!(group_text_nodes(&strings(&["\n", "\n"]), Some(1)), Some(empty.clone()));
    assert_eq!(group_text_nodes(&strings(&["<div>", " <br/>"]), None), Some(empty));
}

#[test]
fn markup_and_blank_lines_are_dropped() {
    assert!(line_survives(&chars_of("text")));
    assert!(line_survives(&chars_of("  a < b ")));
    assert!(!line_survives(&chars_of("<div>")));
    assert!(!line_survives(&chars_of("  \n<b")));
    assert!(!line_survives(&chars_of(" \t ")));
    assert!(!line_survives(&chars_of("")));
    assert_eq!(
        group_text_nodes(&strings(&["<div>", "text", " <b", "\n"]), None),
        Some(groups(&[&["text"]]))
    );
}

#[test]
fn eight_fragments_with_single_breaks() {
    let fixture = strings(&[
        "Inicio",
        "\n",
        "Quiénes somos",
        "\n",
        "Contáctenos",
        "\n",
        "Comprar vino por Internet",
        "\n",
        "Blog",
        "\n",
        "Transporte (información y gastos de envío)",
        "\n",
        "Ayuda",
        "\n",
        "Uso de cookies",
    ]);
    assert_eq!(select_min_split(&fixture), 1);
    // Under a threshold of 2, which the larger document around them gives,
    // the eight lines are one group.
    assert_eq!(
        group_text_nodes(&fixture, Some(2)),
        Some(groups(&[&[
            "Inicio",
            "Quiénes somos",
            "Contáctenos",
            "Comprar vino por Internet",
            "Blog",
            "Transporte (información y gastos de envío)",
            "Ayuda",
            "Uso de cookies",
        ]]))
    );
    // Alone, their threshold is 1, and each break ends a group.
    assert_eq!(
        group_text_nodes(&fixture, None),
        Some(groups(&[
            &["Inicio"],
            &["Quiénes somos"],
            &["Contáctenos"],
            &["Comprar vino por Internet"],
            &["Blog"],
            &["Transporte (información y gastos de envío)"],
            &["Ayuda"],
            &["Uso de cookies"],
        ]))
    );
}

#[test]
fn runs_of_two_and_three_split_at_the_runs_of_three() {
    let fixture = strings(&[
        "1", "\n", "\n", "2", "\n", "\n", "\n", "3", "\n", "\n", "4", "\n", "\n", "\n", "5",
    ]);
    assert_eq!(select_min_split(&fixture), 3);
    assert_eq!(
        group_text_nodes(&fixture, None),
        Some(groups(&[&["1", "2"], &["3", "4"], &["5"]]))
    );
}

#[test]
fn the_threshold_is_estimated_from_the_tokens() {
    // The breaks inside the first fragment count: runs 2 and 1, median 2.
    let fixture = strings(&["a\n\nb", "\n", "c"]);
    assert_eq!(group_text_nodes(&fixture, None), Some(groups(&[&["a"], &["b", "c"]])));
    assert_eq!(group_text_nodes(&fixture, Some(1)), Some(groups(&[&["a"], &["b"], &["c"]])));
}

#[test]
fn an_explicit_threshold_overrides_the_estimate() {
    let fixture = strings(&["a", "\n", "b", "\n", "\n", "c"]);
    assert_eq!(group_text_nodes(&fixture, None), Some(groups(&[&["a", "b"], &["c"]])));
    assert_eq!(group_text_nodes(&fixture, Some(1)), Some(groups(&[&["a"], &["b"], &["c"]])));
    assert_eq!(group_text_nodes(&fixture, Some(3)), Some(groups(&[&["a", "b", "c"]])));
}

#[test]
fn the_threshold_zero_gives_the_lines_as_they_stand() {
    let fixture = strings(&[" a ", "\n", "b | c", "  ", "d\re"]);
    assert_eq!(
        group_text_nodes(&fixture, Some(0)),
        Some(groups(&[&[" a "], &["b | c"], &["d"], &["e"]]))
    );
}

#[test]
fn a_negative_threshold_ends_a_group_behind_every_line() {
    let fixture = strings(&[" a ", "b | c"]);
    assert_eq!(group_text_nodes(&fixture, Some(-1)), Some(groups(&[&["a"], &["b", "c"]])));
}

#[test]
fn dropped_lines_do_not_end_a_run() {
    let fixture = strings(&["a", "\n", " ", "<x>", "\n", "b"]);
    assert_eq!(group_text_nodes(&fixture, Some(2)), Some(groups(&[&["a"], &["b"]])));
}

#[test]
fn a_run_before_the_first_line_ends_nothing() {
    let fixture = strings(&["\n", "\n", "a", "\n", "b"]);
    assert_eq!(group_text_nodes(&fixture, Some(2)), Some(groups(&[&["a", "b"]])));
}

#[test]
fn a_paragraph_of_delimiters_gives_a_group_without_units() {
    assert_eq!(group_text_nodes(&strings(&["|"]), None), Some(groups(&[&[]])));
    assert_eq!(group_text_nodes(&strings(&["|"]), Some(0)), Some(groups(&[&["|"]])));
}

#[test]
fn groups_keep_the_order_of_the_document() {
    let fixture = strings(&["one", "\n", " two\n", "<x>", "three", "\n", "\n", "", "four", " "]);
    let got = group_text_nodes(&fixture, Some(0)).unwrap();
    assert_eq!(got.concat(), strings(&["one", " two", "three", "four"]));
    assert!(got.iter().all(|g| !g.is_empty()));
    let got = group_text_nodes(&fixture, Some(2)).unwrap();
    assert_eq!(got, groups(&[&["one two", "three"], &["four"]]));
}

#[test]
fn nothing_given_out_is_blank() {
    let fixture = strings(&[
        " a | ", "\n", " - ", " b", "\n\n", "|", " ", "c - d", "\n", "(", " e ", ")", "\n", "  ",
    ]);
    for threshold in [None, Some(-1), Some(0), Some(1), Some(2), Some(7)] {
        let got = group_text_nodes(&fixture, threshold).unwrap();
        for group in &got {
            for unit in group {
                assert!(!unit.trim().is_empty(), "{:?} in {:?}", unit, got);
            }
        }
    }
}

#[test]
fn the_same_input_gives_the_same_groups() {
    let fixture = strings(&["a (", "b", ") c.", "\n", ".dk x", "-", " y | z", "\n", "\n", "w"]);
    let stop = compile("x").unwrap();
    for threshold in [None, Some(0), Some(1), Some(2)] {
        assert_eq!(group_text_nodes(&fixture, threshold), group_text_nodes(&fixture, threshold));
        assert_eq!(
            group_and_segment(&fixture, threshold, Some(&stop)),
            group_and_segment(&fixture, threshold, Some(&stop))
        );
    }
}

#[test]
fn a_text_without_delimiters_is_one_unit() {
    assert_eq!(split_sentence("  hello world \n", None), strings(&["hello world"]));
    assert_eq!(split_sentence("hello world", None), strings(&["hello world"]));
    assert_eq!(split_sentence("Uso de cookies", None), strings(&["Uso de cookies"]));
    assert_eq!(split_sentence("a-b", None), strings(&["a-b"]));
    let none: Vec<String> = vec![];
    assert_eq!(split_sentence("", None), none);
    assert_eq!(split_sentence(" \t ", None), none);
}

#[test]
fn a_text_is_split_at_bars_and_spaced_hyphens() {
    assert_eq!(split_sentence("a|b", None), strings(&["a", "b"]));
    assert_eq!(split_sentence("a - b", None), strings(&["a", "b"]));
    assert_eq!(split_sentence("a- b", None), strings(&["a", "b"]));
    assert_eq!(split_sentence("a -b", None), strings(&["a", "b"]));
    assert_eq!(split_sentence("a\u{a0}-b", None), strings(&["a", "b"]));
    assert_eq!(split_sentence("a\t-b", None), strings(&["a\t-b"]));
    assert_eq!(split_sentence("a -- b", None), strings(&["a", "b"]));
    assert_eq!(split_sentence("- -", None), strings(&["-"]));
    assert_eq!(split_sentence(" | - | ", None), Vec::<String>::new());
    assert_eq!(
        split_sentence("Vinissimus: Comprar vino online - Venta de vinos", None),
        strings(&["Vinissimus: Comprar vino online", "Venta de vinos"])
    );
}

#[test]
fn stop_words_part_a_sentence() {
    assert_eq!(
        split_by_words("Revenue Intelligence for ABM", &["for"]),
        strings(&["Revenue Intelligence", "ABM"])
    );
    assert_eq!(split_by_words("  a   b  ", &[]), strings(&["a b"]));
    assert_eq!(split_by_words("FOR for For", &["for"]), Vec::<String>::new());
    assert_eq!(split_by_words("a for", &["for"]), strings(&["a"]));
    assert_eq!(split_by_words("for a", &["for"]), strings(&["a"]));
    // the list is compared with the word in lower case, as it stands
    assert_eq!(split_by_words("a for b", &["FOR"]), strings(&["a for b"]));
    assert_eq!(
        split_sentence("x for y | for z", Some(&["for"][..])),
        strings(&["x", "y", "z"])
    );
}

#[test]
fn lines_are_joined_with_repaired_spacing() {
    assert_eq!(join_sentences(&[]), "");
    assert_eq!(join_sentences(&["  a  ", "b"]), "a b");
    assert_eq!(join_sentences(&["a", "(", "b", ")", "c"]), "a (b) c");
    assert_eq!(join_sentences(&["a ,b ; c : d !", "?"]), "a,b; c: d!?");
    assert_eq!(join_sentences(&["¿ Qué ?", "¡ Ya !"]), "¿Qué? ¡Ya!");
    assert_eq!(join_sentences(&["« a »", "“ b ”"]), "«a» “b”");
    assert_eq!(join_sentences(&["wait …", "- x"]), "wait… - x");
}

#[test]
fn a_dot_that_starts_an_abbreviation_keeps_its_space() {
    assert_eq!(join_sentences(&["use", ".NET", "and", ".dk"]), "use .NET and .dk");
    assert_eq!(join_sentences(&["add", ".5", "or", ".123,"]), "add .5 or .123,");
    assert_eq!(join_sentences(&["the", ".Git", "folder"]), "the .Git folder");
    // no abbreviation: the dot closes up
    assert_eq!(join_sentences(&["the end", ".", "Next"]), "the end. Next");
    assert_eq!(join_sentences(&["a", ".yml", "b"]), "a.yml b");
    assert_eq!(join_sentences(&["a", ".neta", "b"]), "a.neta b");
    assert_eq!(join_sentences(&["a", "..", "b"]), "a.. b");
    // behind an open-like character no space stays, dot or not
    assert_eq!(join_sentences(&["(", ".com", ")"]), "(.com)");
}

#[test]
fn the_gap_between_two_words() {
    let open = PunctuationClass::OpenLike;
    let close = PunctuationClass::CloseLike;
    let other = PunctuationClass::Other;
    assert!(gap_is_closed(open, other, false));
    assert!(gap_is_closed(open, other, true));
    assert!(gap_is_closed(other, close, false));
    assert!(!gap_is_closed(other, close, true));
    assert!(!gap_is_closed(other, other, false));
    assert!(!gap_is_closed(close, open, false));
    assert!(gap_is_closed(open, close, true));
}

#[test]
fn the_lexicon_holds_the_fixed_words_and_the_country_codes() {
    for word in ["net", "travis", "git", "gitignore", "com", "gov", "org"] {
        assert!(is_fixed_abbreviation_text(&chars_of(word)), "{}", word);
    }
    for word in ["", "ne", "nets", "NET", "yml", "dk"] {
        assert!(!is_fixed_abbreviation_text(&chars_of(word)), "{}", word);
    }
    for code in ["dk", "us", "gb", "de", "zw", "af"] {
        assert!(is_country_code_text(&chars_of(code)), "{}", code);
    }
    for code in ["", "d", "DK", "zz", "uk", "dkk", "xx"] {
        assert!(!is_country_code_text(&chars_of(code)), "{}", code);
    }
}

#[test]
fn numeric_stems_hold_ascii_digits_only() {
    assert!(is_numeric_text(&chars_of("0")));
    assert!(is_numeric_text(&chars_of("0123456789")));
    assert!(!is_numeric_text(&chars_of("")));
    assert!(!is_numeric_text(&chars_of("12a")));
    assert!(!is_numeric_text(&chars_of("1.5")));
    assert!(!is_numeric_text(&chars_of("٣")));
}

#[test]
fn a_word_keeps_its_dot_by_its_stem() {
    let re = dot_word_expression();
    assert!(re.is_some());
    for word in [".NET,", ".net", ".travis.yml", ".gitignore", ".dk", ".DK", ".com", ".5", ".42)"] {
        assert!(word_keeps_dot(&re, &chars_of(word)), "{}", word);
    }
    for word in [".", "..", ".yml", ".neta", "net", "x.net", ".,", ".5a", ".ñ", ".comé"] {
        assert!(!word_keeps_dot(&re, &chars_of(word)), "{}", word);
    }
    assert!(!word_keeps_dot(&None, &chars_of(".net")));
    let net = Some(chars_of("net"));
    assert!(decide_keeps_dot(&chars_of(".NET"), &net, false));
    assert!(decide_keeps_dot(&chars_of(".x"), &Some(chars_of("x")), true));
    assert!(!decide_keeps_dot(&chars_of(".x"), &Some(chars_of("x")), false));
    assert!(!decide_keeps_dot(&chars_of(".x"), &None, true));
    assert!(!decide_keeps_dot(&chars_of("."), &net, true));
    assert!(!decide_keeps_dot(&chars_of("net"), &net, true));
}

#[test]
fn a_pattern_that_is_no_expression_is_refused() {
    assert_eq!(compile("(").err(), Some(PatternError::Invalid));
    assert_eq!(compile("[a").err(), Some(PatternError::Invalid));
    assert_eq!(compile("a{2,1}").err(), Some(PatternError::Invalid));
    assert!(compile("").is_ok());
    assert!(compile("_stop_").is_ok());
}

#[test]
fn an_expression_ignores_case() {
    let re = compile("stop").unwrap();
    assert_eq!(remove_matches(&re, "a STOP b Stop c stop"), chars_of("a  b  c "));
    assert_eq!(remove_matches(&re, "nothing"), chars_of("nothing"));
    let group = compile("^x([a-z]*)").unwrap();
    assert_eq!(find_group(&group, &chars_of("XYZ1"), 1), Some(chars_of("YZ")));
    assert_eq!(find_group(&group, &chars_of("XYZ1"), 0), Some(chars_of("XYZ")));
    assert_eq!(find_group(&group, &chars_of("XYZ1"), 2), None);
    assert_eq!(find_group(&group, &chars_of("x"), 1), Some(vec![]));
    assert_eq!(find_group(&group, &chars_of("ax"), 1), None);
    assert_eq!(find_group(&compile("x|(y)").unwrap(), &chars_of("x"), 1), None);
}

#[test]
fn lower_case_is_that_of_the_standard_library() {
    assert_eq!(lowercase(&chars_of("ABOUT Ñ İ")), chars_of("about ñ i\u{307}"));
    assert!(same_text(&chars_of("ab"), &chars_of("ab")));
    assert!(!same_text(&chars_of("ab"), &chars_of("aB")));
    assert!(!same_text(&chars_of("ab"), &chars_of("abc")));
}

#[test]
fn a_sentence_is_cleaned_of_stop_words_and_white_space() {
    let stop = compile("_stop_").unwrap();
    assert_eq!(clean(&stop, "p _stop_ tag"), "p tag");
    assert_eq!(clean(&stop, "  a \n b_STOP_  "), "a b");
    assert_eq!(clean(&stop, "_stop_"), "");
    assert_eq!(clean(&stop, "a, b."), "a, b.");
}

#[test]
fn boilerplate_is_not_worth_keeping() {
    assert!(is_worth_keeping("about us", "about us"));
    assert!(!is_worth_keeping("Uso de Cookies", "uso de cookies"));
    assert!(!is_worth_keeping("© 2020", "© 2020"));
    assert!(!is_worth_keeping("", ""));
    assert!(is_worth_keeping("cook ie", "cook ie"));
    assert!(contains_run(&chars_of("a cookie"), &chars_of("cookie")));
    assert!(contains_run(&chars_of("cookies"), &chars_of("cookie")));
    assert!(contains_run(&chars_of("abc"), &chars_of("")));
    assert!(!contains_run(&chars_of("cooki"), &chars_of("cookie")));
    assert!(!contains_run(&chars_of("cookxie"), &chars_of("cookie")));
    assert!(contains_char(&chars_of("a©"), '©'));
    assert!(!contains_char(&chars_of("ac"), '©'));
}

#[test]
fn sentences_are_cleaned_and_boilerplate_is_left_out() {
    let stop = compile("_stop_").unwrap();
    let got = apply(
        strings(&[
            "p _stop_ tag",
            "another p on the same line",
            "We use COOKIES here",
            "  ",
            "_Stop_",
            "© 2020 home a/s",
            "home   a/s ",
        ]),
        &stop,
    );
    assert_eq!(got, strings(&["p tag", "another p on the same line", "home a/s"]));
}

#[test]
fn units_are_cleaned_where_stop_words_are_given() {
    let stop = compile("_stop_").unwrap();
    let fixture = strings(&["p _stop_ tag", "\n", "Uso de cookies", "\n", "a | _stop_ | b"]);
    assert_eq!(
        group_and_segment(&fixture, Some(1), Some(&stop)),
        Some(groups(&[&["p tag"], &[], &["a", "b"]]))
    );
    assert_eq!(
        group_and_segment(&fixture, Some(1), None),
        Some(groups(&[&["p _stop_ tag"], &["Uso de cookies"], &["a", "_stop_", "b"]]))
    );
    assert_eq!(
        group_and_segment(&fixture, Some(0), Some(&stop)),
        Some(groups(&[&["p _stop_ tag"], &["Uso de cookies"], &["a | _stop_ | b"]]))
    );
}

#[test]
fn a_single_line_is_split_without_being_joined() {
    assert_eq!(regroup_node(&strings(&["a  ( b ) | c"])), strings(&["a  ( b )", "c"]));
    assert_eq!(regroup_node(&strings(&["a  ( b ) | c", " d"])), strings(&["a (b)", "c d"]));
    assert_eq!(regroup_node(&strings(&["a", "b"])), strings(&["a", "b"]));
    assert_eq!(regroup_node(&strings(&["a,", "b"])), strings(&["a, b"]));
    assert_eq!(regroup_node(&strings(&["a", "b -", "c"])), strings(&["a", "b", "c"]));
    assert_eq!(regroup_node(&strings(&["a", "b-", "c"])), strings(&["a", "b-", "c"]));
    assert_eq!(regroup_node(&strings(&["a -", " b"])), strings(&["a", "b"]));
}

fn solid(texts: &[String]) -> String {
    texts
        .concat()
        .chars()
        .filter(|c| !c.is_whitespace() && *c != '|' && *c != '-')
        .collect()
}

#[test]
fn the_solid_text_keeps_the_order_of_the_document() {
    let fixture = strings(&[
        " a ( ", "b", " ) | c - d", "\n", ".dk x", "-", " y | z", "<p>", "\n\n", "¿ w ?", " ", "e-f|",
    ]);
    let survivors = strings(&[" a ( ", "b", " ) | c - d", ".dk x", "-", " y | z", "¿ w ?", "e-f|"]);
    for threshold in [None, Some(-3), Some(0), Some(1), Some(2), Some(5)] {
        let got = group_text_nodes(&fixture, threshold).unwrap();
        assert_eq!(solid(&got.concat()), solid(&survivors), "{:?}", threshold);
    }
    assert_eq!(solid(&regroup_node(&survivors)), "a(b)cd.dkxyz¿w?ef");
}

#[test]
fn a_paragraph_with_solid_text_gives_a_group_with_units() {
    for line in ["a", " - a", "| x |", "-a-", ".", "(", "a - | -"] {
        let got = group_text_nodes(&strings(&[line]), None).unwrap();
        assert_eq!(got.len(), 1);
        assert!(!got[0].is_empty(), "{:?}", line);
    }
    for line in ["|", " - ", "| - |", "- |"] {
        let got = group_text_nodes(&strings(&[line]), None).unwrap();
        assert_eq!(got, groups(&[&[]]), "{:?}", line);
    }
}
