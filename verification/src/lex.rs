//! Character classes used by the scanner, and the two conversions between
//! `String` text and the `Vec<char>` buffers the passes work on.

use vstd::prelude::*;

verus! {

/// The whitespace characters the normalizer collapses: space, tab, CR, LF.
pub open spec fn is_css_ws(c: char) -> bool {
    c == ' ' || c == '\t' || c == '\r' || c == '\n'
}

pub fn css_ws(c: char) -> (r: bool)
    ensures
        r == is_css_ws(c),
{
    c == ' ' || c == '\t' || c == '\r' || c == '\n'
}

/// A hexadecimal digit, either case.
pub open spec fn is_hex_digit(c: char) -> bool {
    ('0' <= c && c <= '9') || ('a' <= c && c <= 'f') || ('A' <= c && c <= 'F')
}

pub fn hex_digit(c: char) -> (r: bool)
    ensures
        r == is_hex_digit(c),
{
    ('0' <= c && c <= '9') || ('a' <= c && c <= 'f') || ('A' <= c && c <= 'F')
}

/// A decimal digit.
pub open spec fn is_digit(c: char) -> bool {
    '0' <= c && c <= '9'
}

pub fn digit(c: char) -> (r: bool)
    ensures
        r == is_digit(c),
{
    '0' <= c && c <= '9'
}

/// The numeric value of a decimal digit.
pub open spec fn digit_val(c: char) -> int {
    c as int - '0' as int
}

/// The characters an `rgb()`/`rgba()` argument list may contain and still
/// be decoded: digits, the three separators, `%` and `.`.
pub open spec fn is_decodable(c: char) -> bool {
    is_digit(c) || c == ' ' || c == ',' || c == '%' || c == '.' || c == '/'
}

pub fn decodable(c: char) -> (r: bool)
    ensures
        r == is_decodable(c),
{
    digit(c) || c == ' ' || c == ',' || c == '%' || c == '.' || c == '/'
}

/// A quote character, either kind.
pub open spec fn is_quote(c: char) -> bool {
    c == '"' || c == '\''
}

pub fn quote(c: char) -> (r: bool)
    ensures
        r == is_quote(c),
{
    c == '"' || c == '\''
}

/// Relies on `str::chars`: the characters of a string slice, in order,
/// are exactly its view.
#[verifier::external_body]
pub fn str_chars(s: &str) -> (r: Vec<char>)
    ensures
        r@ == s@,
{
    s.chars().collect()
}

/// Relies on `String: FromIterator<char>`: collecting characters yields
/// the string whose view is exactly those characters.
#[verifier::external_body]
pub fn string_from_chars(v: &Vec<char>) -> (r: String)
    ensures
        r@ == v@,
{
    v.iter().collect()
}

} // verus!
