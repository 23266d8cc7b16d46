//! Character classes used by word motions, and line endings.
//!
//! The line ending char is the line feed alone, matching how the text model
//! counts lines: a carriage return before a line feed is an ordinary char to
//! the char classes (whitespace), though it joins the line feed into one
//! grapheme.

use unicode_general_category::get_general_category;
use unicode_general_category::GeneralCategory as G;
use vstd::prelude::*;

verus! {

/// The White_Space property of the Unicode Character Database: the controls
/// from tab to carriage return, the space, the next-line control, and the
/// no-break, Ogham, typographic, line, paragraph, narrow, mathematical and
/// ideographic spaces.
pub open spec fn white_space(c: char) -> bool {
    let u = c as int;
    ||| 0x9 <= u <= 0xD
    ||| u == 0x20 || u == 0x85 || u == 0xA0 || u == 0x1680
    ||| 0x2000 <= u <= 0x200A
    ||| u == 0x2028 || u == 0x2029 || u == 0x202F || u == 0x205F || u == 0x3000
}

/// Whether `char::is_alphanumeric` holds of `c` (Alphabetic or Numeric).
pub uninterp spec fn alphanumeric(c: char) -> bool;

/// Whether `char::is_lowercase` holds of `c` (the Lowercase property).
pub uninterp spec fn lowercase(c: char) -> bool;

/// Whether `char::is_uppercase` holds of `c` (the Uppercase property).
pub uninterp spec fn uppercase(c: char) -> bool;

/// The general category that `unicode-general-category` reports for `c`, as
/// far as `GeneralCategory` tells categories apart.
pub uninterp spec fn general_category(c: char) -> GeneralCategory;

/// `char::is_whitespace`: whether `c` has the White_Space property.
#[verifier::external_body]
fn std_is_whitespace(c: char) -> (r: bool)
    ensures
        r == white_space(c),
{
    c.is_whitespace()
}

/// `char::is_alphanumeric`; among ASCII chars, the letters and digits.
#[verifier::external_body]
fn std_is_alphanumeric(c: char) -> (r: bool)
    ensures
        r == alphanumeric(c),
        (c as int) < 0x80 ==> r == (0x30 <= (c as int) <= 0x39 || 0x41 <= (c as int) <= 0x5A || 0x61
            <= (c as int) <= 0x7A),
{
    c.is_alphanumeric()
}

/// `char::is_lowercase`; among ASCII chars, `a` to `z`.
#[verifier::external_body]
fn std_is_lowercase(c: char) -> (r: bool)
    ensures
        r == lowercase(c),
        (c as int) < 0x80 ==> r == (0x61 <= (c as int) <= 0x7A),
{
    c.is_lowercase()
}

/// `char::is_uppercase`; among ASCII chars, `A` to `Z`.
#[verifier::external_body]
fn std_is_uppercase(c: char) -> (r: bool)
    ensures
        r == uppercase(c),
        (c as int) < 0x80 ==> r == (0x41 <= (c as int) <= 0x5A),
{
    c.is_uppercase()
}

/// The Unicode general categories that word motions tell apart, as
/// `unicode-general-category` names them; `Other` stands for every other one.
#[derive(Debug, Copy, Clone, PartialEq, Eq, Structural)]
pub enum GeneralCategory {
    ClosePunctuation,
    ConnectorPunctuation,
    CurrencySymbol,
    DashPunctuation,
    FinalPunctuation,
    InitialPunctuation,
    MathSymbol,
    ModifierSymbol,
    OpenPunctuation,
    OtherPunctuation,
    Other,
}

/// `unicode_general_category::get_general_category`: each of the categories
/// above maps to its own variant, every other category to `Other`.
#[verifier::external_body]
fn category_of(c: char) -> (r: GeneralCategory)
    ensures
        r == general_category(c),
{
    match get_general_category(c) {
        G::ClosePunctuation => GeneralCategory::ClosePunctuation,
        G::ConnectorPunctuation => GeneralCategory::ConnectorPunctuation,
        G::CurrencySymbol => GeneralCategory::CurrencySymbol,
        G::DashPunctuation => GeneralCategory::DashPunctuation,
        G::FinalPunctuation => GeneralCategory::FinalPunctuation,
        G::InitialPunctuation => GeneralCategory::InitialPunctuation,
        G::MathSymbol => GeneralCategory::MathSymbol,
        G::ModifierSymbol => GeneralCategory::ModifierSymbol,
        G::OpenPunctuation => GeneralCategory::OpenPunctuation,
        G::OtherPunctuation => GeneralCategory::OtherPunctuation,
        _ => GeneralCategory::Other,
    }
}

#[derive(Debug, Copy, Clone, PartialEq, Eq, Structural)]
pub enum CharCategory {
    Whitespace,
    Eol,
    Word,
    Punctuation,
    Unknown,
}

/// A line ending char: the line feed.
pub open spec fn is_line_ending(c: char) -> bool {
    c == '\n'
}

/// Word chars: alphanumerics and the underscore.
pub open spec fn is_word_char(c: char) -> bool {
    alphanumeric(c) || c == '_'
}

/// Punctuation and symbol categories that word motions treat as punctuation.
pub open spec fn is_punctuation_category(g: GeneralCategory) -> bool {
    match g {
        GeneralCategory::OtherPunctuation
        | GeneralCategory::OpenPunctuation
        | GeneralCategory::ClosePunctuation
        | GeneralCategory::InitialPunctuation
        | GeneralCategory::FinalPunctuation
        | GeneralCategory::ConnectorPunctuation
        | GeneralCategory::DashPunctuation
        | GeneralCategory::MathSymbol
        | GeneralCategory::CurrencySymbol
        | GeneralCategory::ModifierSymbol => true,
        _ => false,
    }
}

/// The class of a char: line ending, whitespace, word, punctuation, or other.
pub open spec fn spec_categorize(c: char) -> CharCategory {
    if is_line_ending(c) {
        CharCategory::Eol
    } else if white_space(c) {
        CharCategory::Whitespace
    } else if is_word_char(c) {
        CharCategory::Word
    } else if is_punctuation_category(general_category(c)) {
        CharCategory::Punctuation
    } else {
        CharCategory::Unknown
    }
}

pub fn char_is_line_ending(ch: char) -> (r: bool)
    ensures
        r == is_line_ending(ch),
{
    ch == '\n'
}

pub fn char_is_whitespace(ch: char) -> (r: bool)
    ensures
        r == white_space(ch),
{
    std_is_whitespace(ch)
}

pub fn char_is_lowercase(ch: char) -> (r: bool)
    ensures
        r == lowercase(ch),
{
    std_is_lowercase(ch)
}

pub fn char_is_uppercase(ch: char) -> (r: bool)
    ensures
        r == uppercase(ch),
{
    std_is_uppercase(ch)
}

pub fn char_is_word(ch: char) -> (r: bool)
    ensures
        r == is_word_char(ch),
{
    std_is_alphanumeric(ch) || ch == '_'
}

pub fn char_is_punctuation(ch: char) -> (r: bool)
    ensures
        r == is_punctuation_category(general_category(ch)),
{
    match category_of(ch) {
        GeneralCategory::OtherPunctuation
        | GeneralCategory::OpenPunctuation
        | GeneralCategory::ClosePunctuation
        | GeneralCategory::InitialPunctuation
        | GeneralCategory::FinalPunctuation
        | GeneralCategory::ConnectorPunctuation
        | GeneralCategory::DashPunctuation
        | GeneralCategory::MathSymbol
        | GeneralCategory::CurrencySymbol
        | GeneralCategory::ModifierSymbol => true,
        _ => false,
    }
}

pub fn categorize_char(ch: char) -> (r: CharCategory)
    ensures
        r == spec_categorize(ch),
{
    if char_is_line_ending(ch) {
        CharCategory::Eol
    } else if char_is_whitespace(ch) {
        CharCategory::Whitespace
    } else if char_is_word(ch) {
        CharCategory::Word
    } else if char_is_punctuation(ch) {
        CharCategory::Punctuation
    } else {
        CharCategory::Unknown
    }
}

} // verus!
