//! Character classes, conversions between strings and character vectors,
//! and the first-letter capitalization step of normalization.

use vstd::prelude::*;

verus! {

/// The first character of the upper-case mapping of `c`.
pub uninterp spec fn upper_lead(c: char) -> char;

/// Relies on `char::to_uppercase`: the mapping always yields at least one
/// character; its first one is kept.
#[verifier::external_body]
fn upper_first(c: char) -> (r: char)
    ensures
        r == upper_lead(c),
{
    c.to_uppercase().next().unwrap()
}

/// Relies on `str::chars` (collected): the characters of `s`, in order.
#[verifier::external_body]
pub(crate) fn chars_of(s: &str) -> (r: Vec<char>)
    ensures
        r@ == s@,
{
    s.chars().collect()
}

/// Relies on `String: FromIterator<&char>`: the string made of `v`'s characters.
#[verifier::external_body]
pub(crate) fn string_of(v: &Vec<char>) -> (r: String)
    ensures
        r@ == v@,
{
    v.iter().collect()
}

pub open spec fn is_digit(c: char) -> bool {
    '0' <= c && c <= '9'
}

/// Unicode `White_Space`.
pub open spec fn is_space(c: char) -> bool {
    c == ' ' || ('\t' <= c && c <= '\r') || c == '\u{85}' || c == '\u{A0}' || c == '\u{1680}'
        || ('\u{2000}' <= c && c <= '\u{200A}') || c == '\u{2028}' || c == '\u{2029}' || c
        == '\u{202F}' || c == '\u{205F}' || c == '\u{3000}'
}

/// Whether `c` has the Unicode `Alphabetic` property.
pub uninterp spec fn alpha(c: char) -> bool;

pub fn is_digit_exec(c: char) -> (r: bool)
    ensures
        r == is_digit(c),
{
    '0' <= c && c <= '9'
}

pub fn is_space_exec(c: char) -> (r: bool)
    ensures
        r == is_space(c),
{
    c == ' ' || ('\t' <= c && c <= '\r') || c == '\u{85}' || c == '\u{A0}' || c == '\u{1680}'
        || ('\u{2000}' <= c && c <= '\u{200A}') || c == '\u{2028}' || c == '\u{2029}' || c
        == '\u{202F}' || c == '\u{205F}' || c == '\u{3000}'
}

/// Relies on `char::is_alphabetic`: whether `c` has the Unicode `Alphabetic`
/// property.
#[verifier::external_body]
pub(crate) fn is_alphabetic(c: char) -> (r: bool)
    ensures
        r == alpha(c),
{
    c.is_alphabetic()
}

/// `s` with only its first character replaced by its upper-case lead.
pub open spec fn titlecased(s: Seq<char>) -> Seq<char> {
    if s.len() == 0 {
        s
    } else {
        s.update(0, upper_lead(s[0]))
    }
}

pub(crate) fn titlecase_chars(v: &mut Vec<char>)
    ensures
        final(v)@ == titlecased(old(v)@),
{
    if v.len() > 0 {
        let c = upper_first(v[0]);
        v.set(0, c);
    }
}

/// Capitalizes the first character of `input` and leaves the rest unchanged.
pub fn titlecase(input: &str) -> (r: String)
    ensures
        r@ == titlecased(input@),
{
    let mut v = chars_of(input);
    titlecase_chars(&mut v);
    string_of(&v)
}

} // verus!
