use html_parsing_tools::joiner::join_sentences;
use regex::Regex;
use unicode_general_category::get_general_category;
use unicode_general_category::GeneralCategory;

const MARKER: &str = "[\\DOT]";

const POOL: [&str; 18] = [
    "a", "b c", "(", ")", ".", ",", ":", "¿", "?", "«", "»", "[", "]", ".net", ".NET,", ".5",
    ".x", " - ",
];

fn in_lexicon(stem: &str) -> bool {
    ["net", "travis", "git", "gitignore", "com", "gov", "org"].contains(&stem)
        || rust_iso3166::ALL_ALPHA2.iter().any(|code| code.to_lowercase() == stem)
}

fn is_number(stem: &str) -> bool {
    !stem.is_empty() && stem.chars().all(|c| c.is_ascii_digit())
}

/// Joins the lines by marking, inside the text, the dots that are to be
/// kept, repairing the spacing character by character in the given order, and
/// taking the marks out again.
fn join_with_marks(stem: &Regex, lines: &[&str], descending: bool) -> String {
    let mut words: Vec<String> = vec![];
    for word in lines.join(" ").split_whitespace() {
        let mut word = word.to_string();
        if word.starts_with('.') && word.len() > 1 {
            let base = stem.captures(&word).unwrap().get(1).unwrap().as_str().to_lowercase();
            if is_number(&base) || in_lexicon(&base) {
                word = format!("{}{}", MARKER, word);
            }
        }
        words.push(word);
    }
    let mut text = words.join(" ");
    let mut distinct: Vec<char> = text.chars().collect();
    distinct.sort();
    distinct.dedup();
    if descending {
        distinct.reverse();
    }
    for c in distinct {
        let category = get_general_category(c);
        if category == GeneralCategory::InitialPunctuation
            || category == GeneralCategory::OpenPunctuation
            || ['¡', '¿'].contains(&c)
        {
            text = text.replace(&format!("{} ", c), &c.to_string());
        } else if category == GeneralCategory::FinalPunctuation
            || category == GeneralCategory::ClosePunctuation
            || ['.', ',', ';', ':', '!', '?', '…'].contains(&c)
        {
            text = text.replace(&format!(" {}", c), &c.to_string());
        }
    }
    text.replace(&format!("{}.", MARKER), ".")
}

fn stem_expression() -> Regex {
    Regex::new(r"(?i)^\.([\p{L}\p{N}]*)").unwrap()
}

fn agree_on(stem: &Regex, lines: &[&str]) {
    let got = join_sentences(lines);
    assert_eq!(got, join_with_marks(stem, lines, false), "{:?}", lines);
    assert_eq!(got, join_with_marks(stem, lines, true), "{:?}", lines);
}

#[test]
fn joining_agrees_with_marking_on_one_and_two_lines() {
    let stem = stem_expression();
    agree_on(&stem, &[]);
    for a in POOL {
        agree_on(&stem, &[a]);
        for b in POOL {
            agree_on(&stem, &[a, b]);
        }
    }
}

#[test]
fn joining_agrees_with_marking_on_three_lines() {
    let stem = stem_expression();
    let pool = ["a", "(", ")", ".", ",", "¿", "[", ".NET,", ".x"];
    for a in pool {
        for b in pool {
            for c in pool {
                agree_on(&stem, &[a, b, c]);
            }
        }
    }
}

#[test]
fn joining_agrees_with_marking_on_longer_chains() {
    let stem = stem_expression();
    let mut state: u32 = 12345;
    for _ in 0..300 {
        let mut lines: Vec<&str> = vec![];
        let mut length = 4;
        state = state.wrapping_mul(1664525).wrapping_add(1013904223);
        length += (state >> 24) % 5;
        for _ in 0..length {
            state = state.wrapping_mul(1664525).wrapping_add(1013904223);
            lines.push(POOL[((state >> 16) as usize) % POOL.len()]);
        }
        agree_on(&stem, &lines);
    }
}
