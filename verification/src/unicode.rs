use vstd::prelude::*;
use crate::text::str_chars;

verus! {

// Character classification.
//
// The ASCII predicates are a few comparisons each, so they are defined here
// and proved. The Unicode predicates consult the tables that ship with `core`;
// those are named, and their wrappers state only that the answer is the named
// property of the character.

/// `c` is an ASCII decimal digit `0`..=`9`.
pub open spec fn spec_is_ascii_digit(c: char) -> bool {
    '0' <= c <= '9'
}

/// `c` is an ASCII letter.
pub open spec fn spec_is_ascii_alphabetic(c: char) -> bool {
    ('a' <= c <= 'z') || ('A' <= c <= 'Z')
}

/// `c` is an ASCII lowercase letter.
pub open spec fn spec_is_ascii_lowercase(c: char) -> bool {
    'a' <= c <= 'z'
}

/// `c` is an ASCII uppercase letter.
pub open spec fn spec_is_ascii_uppercase(c: char) -> bool {
    'A' <= c <= 'Z'
}

/// `c` is an ASCII letter or digit.
pub open spec fn spec_is_ascii_alphanumeric(c: char) -> bool {
    spec_is_ascii_digit(c) || spec_is_ascii_alphabetic(c)
}

/// `c` is an ASCII word character: `[0-9A-Za-z_]`.
pub open spec fn spec_is_word_char(c: char) -> bool {
    spec_is_ascii_alphanumeric(c) || c == '_'
}

/// `c` lies in the ASCII range.
pub open spec fn spec_is_ascii(c: char) -> bool {
    (c as u32) < 128
}

/// The ASCII lowercase form of `c`; other characters are unchanged.
pub open spec fn spec_to_ascii_lowercase(c: char) -> char {
    if spec_is_ascii_uppercase(c) {
        ((c as u32) + 32) as char
    } else {
        c
    }
}

/// The ASCII uppercase form of `c`; other characters are unchanged.
pub open spec fn spec_to_ascii_uppercase(c: char) -> char {
    if spec_is_ascii_lowercase(c) {
        ((c as u32) - 32) as char
    } else {
        c
    }
}

pub fn is_ascii_digit(c: char) -> (r: bool)
    ensures
        r == spec_is_ascii_digit(c),
{
    '0' <= c && c <= '9'
}

pub fn is_ascii_alphabetic(c: char) -> (r: bool)
    ensures
        r == spec_is_ascii_alphabetic(c),
{
    ('a' <= c && c <= 'z') || ('A' <= c && c <= 'Z')
}

pub fn is_ascii_lowercase(c: char) -> (r: bool)
    ensures
        r == spec_is_ascii_lowercase(c),
{
    'a' <= c && c <= 'z'
}

pub fn is_ascii_uppercase(c: char) -> (r: bool)
    ensures
        r == spec_is_ascii_uppercase(c),
{
    'A' <= c && c <= 'Z'
}

pub fn is_word_char(c: char) -> (r: bool)
    ensures
        r == spec_is_word_char(c),
{
    is_ascii_digit(c) || is_ascii_alphabetic(c) || c == '_'
}

pub fn is_ascii(c: char) -> (r: bool)
    ensures
        r == spec_is_ascii(c),
{
    (c as u32) < 128
}

pub fn to_ascii_lowercase(c: char) -> (r: char)
    ensures
        r == spec_to_ascii_lowercase(c),
{
    if is_ascii_uppercase(c) {
        let v: u32 = (c as u32) + 32;
        let r = from_scalar(v);
        match r {
            Some(x) => x,
            None => c,
        }
    } else {
        c
    }
}

pub fn to_ascii_uppercase(c: char) -> (r: char)
    ensures
        r == spec_to_ascii_uppercase(c),
{
    if is_ascii_lowercase(c) {
        let v: u32 = (c as u32) - 32;
        let r = from_scalar(v);
        match r {
            Some(x) => x,
            None => c,
        }
    } else {
        c
    }
}

/// `v` is a Unicode scalar value: a code point outside the surrogate range.
pub open spec fn spec_is_scalar(v: u32) -> bool {
    v <= 0xD7FF || (0xE000 <= v && v <= 0x10FFFF)
}

/// Calls `char::from_u32`, which returns the character whose code point is
/// `v` when `v` is a Unicode scalar value, and `None` otherwise.
#[verifier::external_body]
pub(crate) fn from_scalar(v: u32) -> (r: Option<char>)
    ensures
        r is Some <==> spec_is_scalar(v),
        r matches Some(c) ==> c as u32 == v && c == v as char,
{
    char::from_u32(v)
}

/// The Unicode `Alphabetic` property, as `char::is_alphabetic` reports it.
pub uninterp spec fn char_is_alphabetic(c: char) -> bool;

/// The Unicode `Numeric` property (general categories Nd, Nl, No), as
/// `char::is_numeric` reports it.
pub uninterp spec fn char_is_numeric(c: char) -> bool;

/// The Unicode `White_Space` property, as `char::is_whitespace` reports it.
pub uninterp spec fn char_is_whitespace(c: char) -> bool;

/// The Unicode `Lowercase` property, as `char::is_lowercase` reports it.
pub uninterp spec fn char_is_lowercase(c: char) -> bool;

/// The Unicode `Uppercase` property, as `char::is_uppercase` reports it.
pub uninterp spec fn char_is_uppercase(c: char) -> bool;

/// Alphabetic or numeric, which is how `char::is_alphanumeric` is
/// documented.
pub open spec fn char_is_alphanumeric(c: char) -> bool {
    char_is_alphabetic(c) || char_is_numeric(c)
}

/// Calls `char::is_alphabetic`; the result is the named property of `c`.
#[verifier::external_body]
pub(crate) fn is_alphabetic(c: char) -> (r: bool)
    ensures
        r == char_is_alphabetic(c),
{
    c.is_alphabetic()
}

/// Calls `char::is_numeric`; the result is the named property of `c`.
#[verifier::external_body]
pub(crate) fn is_numeric(c: char) -> (r: bool)
    ensures
        r == char_is_numeric(c),
{
    c.is_numeric()
}

/// Calls `char::is_whitespace`; the result is the named property of `c`.
#[verifier::external_body]
pub(crate) fn is_whitespace(c: char) -> (r: bool)
    ensures
        r == char_is_whitespace(c),
{
    c.is_whitespace()
}

/// Calls `char::is_lowercase`; the result is the named property of `c`.
#[verifier::external_body]
pub(crate) fn is_lowercase(c: char) -> (r: bool)
    ensures
        r == char_is_lowercase(c),
{
    c.is_lowercase()
}

/// Calls `char::is_uppercase`; the result is the named property of `c`.
#[verifier::external_body]
pub(crate) fn is_uppercase(c: char) -> (r: bool)
    ensures
        r == char_is_uppercase(c),
{
    c.is_uppercase()
}

/// Calls `char::is_alphanumeric`, which std documents as true exactly when
/// `c` is alphabetic or numeric.
#[verifier::external_body]
pub(crate) fn is_alphanumeric(c: char) -> (r: bool)
    ensures
        r == char_is_alphanumeric(c),
{
    c.is_alphanumeric()
}

/// Whether two string slices hold the same characters.
pub(crate) fn str_eq(a: &str, b: &str) -> (r: bool)
    ensures
        r == (a@ == b@),
{
    let x = str_chars(a);
    let y = str_chars(b);
    if x.len() != y.len() {
        return false;
    }
    let mut i: usize = 0;
    while i < x.len()
        invariant
            x@ == a@,
            y@ == b@,
            x@.len() == y@.len(),
            i <= x@.len(),
            forall|k: int| 0 <= k < i ==> x@[k] == y@[k],
        decreases x.len() - i,
    {
        if x[i] != y[i] {
            assert(a@[i as int] != b@[i as int]);
            return false;
        }
        i = i + 1;
    }
    assert(x@ =~= y@);
    true
}

} // verus!
