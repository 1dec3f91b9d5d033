//! The Unicode tables this crate reads through: std's character classes and
//! case mappings, the normalization forms of `unicode-normalization`, and the
//! general categories of `unicode-general-category`. Each result takes
//! Unicode's tables to state, so it is named here rather than stated.

use unicode_general_category::get_general_category;
use unicode_normalization::UnicodeNormalization;
use vstd::prelude::*;

verus! {

/// `char::is_alphanumeric`: the Unicode `Alphabetic` property or a numeric
/// general category.
pub uninterp spec fn alphanumeric(c: char) -> bool;

/// Calls `char::is_alphanumeric`; its result is named, not stated.
#[verifier::external_body]
pub(crate) fn is_alphanumeric(c: char) -> (b: bool)
    ensures
        b == alphanumeric(c),
{
    c.is_alphanumeric()
}

/// `str::to_lowercase`: the full Unicode lowercase mapping.
pub uninterp spec fn lowercase(s: Seq<char>) -> Seq<char>;

/// Calls `str::to_lowercase`; its result is named, not stated.
#[verifier::external_body]
pub(crate) fn to_lowercase(s: &str) -> (r: String)
    ensures
        r@ == lowercase(s@),
{
    s.to_lowercase()
}

/// `char::to_lowercase`: the full lowercase mapping of one character, which
/// std documents as one or more characters, the character itself where it has
/// no lowercase mapping.
pub uninterp spec fn char_lowercase(c: char) -> Seq<char>;

/// Calls `char::to_lowercase` and collects the characters it yields; the
/// mapping is named, not stated, and std documents that it yields at least one.
#[verifier::external_body]
fn char_lower(c: char) -> (r: Vec<char>)
    ensures
        r@ == char_lowercase(c),
        r@.len() >= 1,
{
    c.to_lowercase().collect()
}

/// The simple lowercase mapping of one character: the first character of
/// its full lowercase mapping.
pub open spec fn simple_lowercase(c: char) -> char {
    char_lowercase(c)[0]
}

/// The first character of the lowercase mapping of `c`.
pub fn simple_lower(c: char) -> (r: char)
    ensures
        r == simple_lowercase(c),
{
    let mapped = char_lower(c);
    mapped[0]
}

/// Unicode Normalization Form C of a string.
pub uninterp spec fn nfc(s: Seq<char>) -> Seq<char>;

/// Unicode Normalization Form KD of a string.
pub uninterp spec fn nfkd(s: Seq<char>) -> Seq<char>;

/// Calls `UnicodeNormalization::nfc` of `unicode-normalization` and collects
/// the characters it yields; the result is named, not stated.
#[verifier::external_body]
pub(crate) fn to_nfc(s: &str) -> (r: String)
    ensures
        r@ == nfc(s@),
{
    s.nfc().collect()
}

/// Calls `UnicodeNormalization::nfkd` of `unicode-normalization` and collects
/// the characters it yields; the result is named, not stated.
#[verifier::external_body]
pub(crate) fn to_nfkd(s: &str) -> (r: String)
    ensures
        r@ == nfkd(s@),
{
    s.nfkd().collect()
}

/// The two-letter abbreviation of the general category
/// `unicode-general-category` assigns a character, such as `Lu` or `Pc`.
pub uninterp spec fn category_code(c: char) -> Seq<char>;

/// Calls `get_general_category` of `unicode-general-category` and converts the
/// category it returns to the crate's own two-letter abbreviation of it
/// (`GeneralCategory::abbreviation`). The code is named, not stated; the one
/// fact stated is the one every arm of that method shows, that it has two
/// letters.
#[verifier::external_body]
pub(crate) fn general_category(c: char) -> (r: &'static str)
    ensures
        r@ == category_code(c),
        r@.len() == 2,
{
    get_general_category(c).abbreviation()
}

} // verus!
