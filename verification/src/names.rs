//! The parts of a person's name, as entries of a record.

use vstd::prelude::*;
use human_name::Name;
use crate::meta::text_of;

verus! {

/// The parts of a parsed name.
pub struct NameParts {
    pub given_name: Option<String>,
    pub generational_suffix: Option<String>,
    pub honorific_prefix: Option<String>,
    pub honorific_suffix: Option<String>,
    pub middle_initials: Option<String>,
    pub middle_name: Option<String>,
    pub surname: String,
}

/// The texts of the parts of a name.
pub struct NameTexts {
    pub given_name: Option<Seq<char>>,
    pub generational_suffix: Option<Seq<char>>,
    pub honorific_prefix: Option<Seq<char>>,
    pub honorific_suffix: Option<Seq<char>>,
    pub middle_initials: Option<Seq<char>>,
    pub middle_name: Option<Seq<char>>,
    pub surname: Seq<char>,
}

/// The texts of some parts.
pub open spec fn texts_of_parts(parts: NameParts) -> NameTexts {
    NameTexts {
        given_name: text_of(parts.given_name),
        generational_suffix: text_of(parts.generational_suffix),
        honorific_prefix: text_of(parts.honorific_prefix),
        honorific_suffix: text_of(parts.honorific_suffix),
        middle_initials: text_of(parts.middle_initials),
        middle_name: text_of(parts.middle_name),
        surname: parts.surname@,
    }
}

/// The parts that `human_name` finds in a name, where it can parse it.
pub uninterp spec fn parsed_name(name: Seq<char>) -> Option<NameTexts>;

/// Parses a name with `human_name::Name::parse` and reads the parts of the
/// result with its accessors. The contract names the outcome
/// `parsed_name(name)`.
#[verifier::external_body]
fn parse_parts(name: &str) -> (parts: Option<NameParts>)
    ensures
        parts is Some <==> parsed_name(name@) is Some,
        parts is Some ==> texts_of_parts(parts->Some_0) == parsed_name(name@)->Some_0,
{
    Name::parse(name).map(|n| NameParts {
        given_name: n.given_name().map(str::to_string),
        generational_suffix: n.generational_suffix().map(str::to_string),
        honorific_prefix: n.honorific_prefix().map(str::to_string),
        honorific_suffix: n.honorific_suffix().map(str::to_string),
        middle_initials: n.middle_initials().map(str::to_string),
        middle_name: n.middle_name().map(|m| m.to_string()),
        surname: n.surname().to_string(),
    })
}

/// The entry of a part under a key, where the part is present.
pub open spec fn entry_of(key: Seq<char>, part: Option<Seq<char>>) -> Seq<(Seq<char>, Seq<char>)> {
    match part {
        Some(text) => seq![(key, text)],
        None => Seq::empty(),
    }
}

/// The entries of a name: one for each part that is present, under the
/// part's key, and one for the surname.
pub open spec fn entries_of(parts: NameTexts) -> Seq<(Seq<char>, Seq<char>)> {
    entry_of("given_name"@, parts.given_name) + entry_of(
        "generational_suffix"@,
        parts.generational_suffix,
    ) + entry_of("honorific_prefix"@, parts.honorific_prefix) + entry_of(
        "honorific_suffix"@,
        parts.honorific_suffix,
    ) + entry_of("middle_initials"@, parts.middle_initials) + entry_of(
        "middle_name"@,
        parts.middle_name,
    ) + seq![("surname"@, parts.surname)]
}

/// The entries of what was parsed: none where the name could not be parsed.
pub open spec fn entries_of_parsed(parsed: Option<NameTexts>) -> Seq<(Seq<char>, Seq<char>)> {
    match parsed {
        Some(parts) => entries_of(parts),
        None => Seq::empty(),
    }
}

/// The texts of the entries.
pub open spec fn entry_texts(entries: Seq<(String, String)>) -> Seq<(Seq<char>, Seq<char>)> {
    Seq::new(entries.len(), |i: int| (entries[i].0@, entries[i].1@))
}

/// Adds the entry of a part under a key, where the part is present.
fn push_entry(entries: &mut Vec<(String, String)>, key: &str, part: &Option<String>)
    ensures
        entry_texts(final(entries)@) == entry_texts(old(entries)@) + entry_of(key@, text_of(*part)),
{
    let ghost before = entry_texts(entries@);
    match part {
        Some(text) => {
            let k = key.to_owned();
            let t = text.clone();
            entries.push((k, t));
            assert(entry_texts(entries@) =~= before + seq![(key@, text@)]);
        },
        None => {
            assert(entry_texts(entries@) =~= before + Seq::<(Seq<char>, Seq<char>)>::empty());
        },
    }
}

/// The entries of a name: one for each part that is present, under the
/// part's key, and one for the surname.
pub fn name_entries(parts: &NameParts) -> (entries: Vec<(String, String)>)
    ensures
        entry_texts(entries@) == entries_of(texts_of_parts(*parts)),
{
    let mut entries: Vec<(String, String)> = Vec::new();
    assert(entry_texts(entries@) =~= Seq::<(Seq<char>, Seq<char>)>::empty());
    push_entry(&mut entries, "given_name", &parts.given_name);
    push_entry(&mut entries, "generational_suffix", &parts.generational_suffix);
    push_entry(&mut entries, "honorific_prefix", &parts.honorific_prefix);
    push_entry(&mut entries, "honorific_suffix", &parts.honorific_suffix);
    push_entry(&mut entries, "middle_initials", &parts.middle_initials);
    push_entry(&mut entries, "middle_name", &parts.middle_name);
    let ghost before = entry_texts(entries@);
    let key = "surname".to_owned();
    let surname = parts.surname.clone();
    entries.push((key, surname));
    assert(entry_texts(entries@) =~= before + seq![("surname"@, parts.surname@)]);
    assert(entry_texts(entries@) =~= entries_of(texts_of_parts(*parts)));
    entries
}

/// Parses a person's name and gives its parts as entries; no entry where
/// the name cannot be parsed.
pub fn parse_name(name: &str) -> (entries: Vec<(String, String)>)
    ensures
        entry_texts(entries@) == entries_of_parsed(parsed_name(name@)),
{
    match parse_parts(name) {
        Some(parts) => name_entries(&parts),
        None => {
            let entries: Vec<(String, String)> = Vec::new();
            assert(entry_texts(entries@) =~= Seq::<(Seq<char>, Seq<char>)>::empty());
            entries
        },
    }
}

} // verus!
