//! Character classes of code points.
use vstd::prelude::*;

verus! {

/// The `General_Category` of a code point, in ICU's numbering.
pub uninterp spec fn general_category(cp: u32) -> u8;

/// Whether a code point has the `White_Space` property.
pub uninterp spec fn white_space(cp: u32) -> bool;

/// The `Script` of a code point, in ICU's numbering.
pub uninterp spec fn script(cp: u32) -> u16;

/// `icu::properties::CodePointMapData::<GeneralCategory>::get32`: the
/// `General_Category` that ICU's compiled data gives the code point, as the
/// number of its variant. It depends on the code point alone.
#[verifier::external_body]
fn icu_general_category(cp: u32) -> (r: u8)
    ensures
        r == general_category(cp),
{
    icu::properties::CodePointMapData::<icu::properties::props::GeneralCategory>::new().get32(cp) as u8
}

/// `icu::properties::CodePointSetData::contains32` on the `White_Space` set of
/// ICU's compiled data. It depends on the code point alone.
#[verifier::external_body]
fn icu_white_space(cp: u32) -> (r: bool)
    ensures
        r == white_space(cp),
{
    icu::properties::CodePointSetData::new::<icu::properties::props::WhiteSpace>().contains32(cp)
}

/// `icu::properties::CodePointMapData::<Script>::get32`: the `Script` that
/// ICU's compiled data gives the code point, as its number. It depends on the
/// code point alone.
#[allow(deprecated)]
#[verifier::external_body]
fn icu_script(cp: u32) -> (r: u16)
    ensures
        r == script(cp),
{
    icu::properties::CodePointMapData::<icu::properties::props::Script>::new().get32(cp).to_icu4c_value()
}

/// `General_Category=Lowercase_Letter`.
pub const LOWERCASE_LETTER: u8 = 2;

/// `General_Category=Modifier_Letter`.
pub const MODIFIER_LETTER: u8 = 4;

/// `General_Category=Other_Letter`.
pub const OTHER_LETTER: u8 = 5;

/// `Script=Han`.
pub const HAN: u16 = 17;

/// The classes that the pretokenization patterns tell apart.
#[derive(Clone, Copy, Debug, PartialEq, Eq, Structural)]
pub enum CharClass {
    Letter,
    Number,
    Whitespace,
    Other,
}

/// `\p{L}`.
pub open spec fn is_letter_cp(cp: u32) -> bool {
    1 <= general_category(cp) <= 5
}

/// `\p{M}`.
pub open spec fn is_mark_cp(cp: u32) -> bool {
    6 <= general_category(cp) <= 8
}

/// `\p{N}`.
pub open spec fn is_number_cp(cp: u32) -> bool {
    9 <= general_category(cp) <= 11
}

/// The class of a code point; with `marks_join`, `\p{M}` counts as a letter.
pub open spec fn cp_class(cp: u32, marks_join: bool) -> CharClass {
    if is_letter_cp(cp) || (marks_join && is_mark_cp(cp)) {
        CharClass::Letter
    } else if is_number_cp(cp) {
        CharClass::Number
    } else if white_space(cp) {
        CharClass::Whitespace
    } else {
        CharClass::Other
    }
}

/// The class of a code point; with `marks_join`, `\p{M}` counts as a letter.
pub fn class_of(cp: u32, marks_join: bool) -> (c: CharClass)
    ensures
        c == cp_class(cp, marks_join),
{
    let gc: u8 = icu_general_category(cp);
    if (1 <= gc && gc <= 5) || (marks_join && 6 <= gc && gc <= 8) {
        CharClass::Letter
    } else if 9 <= gc && gc <= 11 {
        CharClass::Number
    } else if icu_white_space(cp) {
        CharClass::Whitespace
    } else {
        CharClass::Other
    }
}

/// How a code point can take part in a cased word.
#[derive(Clone, Copy, Debug, PartialEq, Eq, Structural)]
pub enum WordPart {
    /// `[\p{Lu}\p{Lt}]`: only the leading, upper-case part.
    Upper,
    /// `\p{Ll}`: only the trailing, lower-case part.
    Lower,
    /// `[\p{Lm}\p{Lo}\p{M}]`: either part.
    Either,
    /// None of these.
    No,
}

/// `\p{Han}`.
pub open spec fn is_han_cp(cp: u32) -> bool {
    script(cp) == HAN
}

/// The part a code point can take in a cased word; with `no_han`, Han takes
/// none.
pub open spec fn cp_word_part(cp: u32, no_han: bool) -> WordPart {
    let gc = general_category(cp);
    if no_han && is_han_cp(cp) {
        WordPart::No
    } else if gc == LOWERCASE_LETTER {
        WordPart::Lower
    } else if gc == MODIFIER_LETTER || gc == OTHER_LETTER || is_mark_cp(cp) {
        WordPart::Either
    } else if is_letter_cp(cp) {
        WordPart::Upper
    } else {
        WordPart::No
    }
}

/// The part a code point can take in a cased word; with `no_han`, Han takes
/// none.
pub fn word_part_of(cp: u32, no_han: bool) -> (w: WordPart)
    ensures
        w == cp_word_part(cp, no_han),
{
    if no_han && icu_script(cp) == HAN {
        return WordPart::No;
    }
    let gc: u8 = icu_general_category(cp);
    if gc == LOWERCASE_LETTER {
        WordPart::Lower
    } else if gc == MODIFIER_LETTER || gc == OTHER_LETTER || (6 <= gc && gc <= 8) {
        WordPart::Either
    } else if 1 <= gc && gc <= 5 {
        WordPart::Upper
    } else {
        WordPart::No
    }
}

/// Whether a code point belongs to `\p{Han}`.
pub fn is_han(cp: u32) -> (b: bool)
    ensures
        b == is_han_cp(cp),
{
    icu_script(cp) == HAN
}

} // verus!
