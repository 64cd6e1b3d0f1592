//! The classification of punctuation by which lines are tied and spacing is repaired.

use vstd::prelude::*;
use unicode_general_category::get_general_category;
use unicode_general_category::GeneralCategory;
use crate::text::is_white_space;
use crate::text::char_is_white_space;

verus! {

/// What the classification reads of a character's Unicode general category: one
/// of the four bracket-like categories of punctuation, or any other category.
#[derive(Clone, Copy, Debug, PartialEq, Eq, Structural)]
pub enum BracketCategory {
    /// `Pi`, an opening quotation mark.
    Initial,
    /// `Ps`, an opening bracket.
    Open,
    /// `Pf`, a closing quotation mark.
    Final,
    /// `Pe`, a closing bracket.
    Close,
    /// Every other general category.
    Other,
}

/// How a character behaves toward the space next to it.
#[derive(Clone, Copy, Debug, PartialEq, Eq, Structural)]
pub enum PunctuationClass {
    /// No space belongs behind it.
    OpenLike,
    /// No space belongs in front of it.
    CloseLike,
    /// It has no claim on the space around it.
    Other,
}

/// The bracket category that the Unicode tables of `unicode_general_category`
/// give to `c`.
pub uninterp spec fn bracket_category_of(c: char) -> BracketCategory;

/// Looks `c` up with `unicode_general_category::get_general_category`. The
/// contract gives the answer its name, `bracket_category_of(c)`, and claims that
/// the lookup depends on `c` alone; the four bracket-like categories are told
/// apart and every other category is given as `Other`.
#[verifier::external_body]
fn lookup_bracket_category(c: char) -> (category: BracketCategory)
    ensures
        category == bracket_category_of(c),
{
    match get_general_category(c) {
        GeneralCategory::InitialPunctuation => BracketCategory::Initial,
        GeneralCategory::OpenPunctuation => BracketCategory::Open,
        GeneralCategory::FinalPunctuation => BracketCategory::Final,
        GeneralCategory::ClosePunctuation => BracketCategory::Close,
        _ => BracketCategory::Other,
    }
}

/// The inverted exclamation and question marks, which open a sentence.
pub open spec fn is_open_mark(c: char) -> bool {
    c == '\u{a1}' || c == '\u{bf}'
}

/// The open marks, with the comma and the colon.
pub open spec fn is_extended_open_mark(c: char) -> bool {
    is_open_mark(c) || c == ',' || c == ':'
}

/// The marks that close a clause: `.` `,` `;` `:` `!` `?` and the ellipsis.
pub open spec fn is_close_mark(c: char) -> bool {
    c == '.' || c == ',' || c == ';' || c == ':' || c == '!' || c == '?' || c == '\u{2026}'
}

/// The class of a character whose bracket category is `category`: an opening
/// category or an open mark makes it open-like; failing that, a closing
/// category or a close mark makes it close-like.
pub open spec fn class_in_category(c: char, category: BracketCategory) -> PunctuationClass {
    if category == BracketCategory::Initial || category == BracketCategory::Open || is_open_mark(
        c,
    ) {
        PunctuationClass::OpenLike
    } else if category == BracketCategory::Final || category == BracketCategory::Close
        || is_close_mark(c) {
        PunctuationClass::CloseLike
    } else {
        PunctuationClass::Other
    }
}

/// The class of `c`.
pub open spec fn class_of(c: char) -> PunctuationClass {
    class_in_category(c, bracket_category_of(c))
}

/// Two neighbouring lines are tied when the character `left` that ends the
/// first and the character `right` that starts the second, of classes
/// `left_class` and `right_class`, must not be parted.
pub open spec fn tied_in_classes(
    left: char,
    right: char,
    left_class: PunctuationClass,
    right_class: PunctuationClass,
) -> bool {
    ||| is_white_space(left)
    ||| is_white_space(right)
    ||| left_class == PunctuationClass::OpenLike
    ||| right_class == PunctuationClass::CloseLike
    ||| is_extended_open_mark(left)
    ||| is_close_mark(right)
}

/// A line that ends in `left` and a line that starts with `right` are tied.
pub open spec fn tied(left: char, right: char) -> bool {
    tied_in_classes(left, right, class_of(left), class_of(right))
}

/// Whether `c` is an open mark.
pub fn char_is_open_mark(c: char) -> (r: bool)
    ensures
        r == is_open_mark(c),
{
    c == '\u{a1}' || c == '\u{bf}'
}

/// Whether `c` is a close mark.
pub fn char_is_close_mark(c: char) -> (r: bool)
    ensures
        r == is_close_mark(c),
{
    c == '.' || c == ',' || c == ';' || c == ':' || c == '!' || c == '?' || c == '\u{2026}'
}

/// The class of a character of which the bracket category is known.
pub fn classify_in_category(c: char, category: BracketCategory) -> (class: PunctuationClass)
    ensures
        class == class_in_category(c, category),
{
    let opening = match category {
        BracketCategory::Initial => true,
        BracketCategory::Open => true,
        _ => false,
    };
    let closing = match category {
        BracketCategory::Final => true,
        BracketCategory::Close => true,
        _ => false,
    };
    if opening || char_is_open_mark(c) {
        PunctuationClass::OpenLike
    } else if closing || char_is_close_mark(c) {
        PunctuationClass::CloseLike
    } else {
        PunctuationClass::Other
    }
}

/// The class of `c`.
pub fn classify(c: char) -> (class: PunctuationClass)
    ensures
        class == class_of(c),
{
    classify_in_category(c, lookup_bracket_category(c))
}

/// Whether two neighbouring lines are tied, from the two characters that meet
/// and their classes.
pub fn is_tied_in_classes(
    left: char,
    right: char,
    left_class: PunctuationClass,
    right_class: PunctuationClass,
) -> (r: bool)
    ensures
        r == tied_in_classes(left, right, left_class, right_class),
{
    let left_opens = match left_class {
        PunctuationClass::OpenLike => true,
        _ => false,
    };
    let right_closes = match right_class {
        PunctuationClass::CloseLike => true,
        _ => false,
    };
    char_is_white_space(left) || char_is_white_space(right) || left_opens || right_closes
        || char_is_open_mark(left) || left == ',' || left == ':' || char_is_close_mark(right)
}

/// Whether a line that ends in `left` and a line that starts with `right` are tied.
pub fn is_tied(left: char, right: char) -> (r: bool)
    ensures
        r == tied(left, right),
{
    is_tied_in_classes(left, right, classify(left), classify(right))
}

} // verus!
