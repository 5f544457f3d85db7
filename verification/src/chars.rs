//! Character classes of the iCalendar grammar.
//!
//! The grammar is defined over the ASCII subset: token names are runs of
//! ASCII letters, digits, `-` and `_`; whitespace means the ASCII whitespace
//! characters. Characters outside ASCII never belong to a token name and
//! pass through property values untouched.

use crate::text::str_to_chars;
use vstd::prelude::*;

verus! {

/// Whitespace: space, tab, and the ASCII control line breaks.
pub open spec fn spec_is_space(c: char) -> bool {
    c == ' ' || c == '\t' || c == '\n' || c == '\r' || c == '\u{b}' || c == '\u{c}'
}

/// An ASCII letter.
pub open spec fn spec_is_alpha(c: char) -> bool {
    ('a' <= c && c <= 'z') || ('A' <= c && c <= 'Z')
}

/// An ASCII digit.
pub open spec fn spec_is_digit(c: char) -> bool {
    '0' <= c && c <= '9'
}

/// An ASCII letter or digit.
pub open spec fn spec_is_alphanumeric(c: char) -> bool {
    spec_is_alpha(c) || spec_is_digit(c)
}

/// A character of a token name: letters, digits, `-` and `_`.
pub open spec fn spec_is_name_char(c: char) -> bool {
    spec_is_alphanumeric(c) || c == '-' || c == '_'
}

/// An ASCII control character; a quoted parameter value may not contain one.
pub open spec fn spec_is_control(c: char) -> bool {
    (c as u32) < 0x20 || (c as u32) == 0x7f
}

/// Two characters equal up to ASCII case.
pub open spec fn char_eq_ci(a: char, b: char) -> bool {
    a == b || (spec_is_alpha(a) && spec_is_alpha(b) && ((a as u32) == (b as u32) + 32 || (b
        as u32) == (a as u32) + 32))
}

/// Two texts equal up to ASCII case.
pub open spec fn seq_eq_ci(a: Seq<char>, b: Seq<char>) -> bool {
    a.len() == b.len() && forall|i: int| 0 <= i < a.len() ==> char_eq_ci(a[i], b[i])
}

pub fn is_space(c: char) -> (r: bool)
    ensures
        r == spec_is_space(c),
{
    c == ' ' || c == '\t' || c == '\n' || c == '\r' || c == '\u{b}' || c == '\u{c}'
}

pub fn is_alpha(c: char) -> (r: bool)
    ensures
        r == spec_is_alpha(c),
{
    ('a' <= c && c <= 'z') || ('A' <= c && c <= 'Z')
}

pub fn is_digit(c: char) -> (r: bool)
    ensures
        r == spec_is_digit(c),
{
    '0' <= c && c <= '9'
}

pub fn is_name_char(c: char) -> (r: bool)
    ensures
        r == spec_is_name_char(c),
{
    is_alpha(c) || is_digit(c) || c == '-' || c == '_'
}

pub fn is_control(c: char) -> (r: bool)
    ensures
        r == spec_is_control(c),
{
    (c as u32) < 0x20 || (c as u32) == 0x7f
}

/// Whether a logical line may continue through this character: anything
/// whitespace-like or alphanumeric, except a bare line break.
pub fn is_alphanumeric_or_space(c: char) -> (r: bool)
    ensures
        r == (c != '\n' && (spec_is_space(c) || spec_is_alphanumeric(c))),
{
    c != '\n' && (is_space(c) || is_alpha(c) || is_digit(c))
}

/// As [`is_alphanumeric_or_space`], but letters only.
pub fn is_alphabetic_or_space(c: char) -> (r: bool)
    ensures
        r == (c != '\n' && (spec_is_space(c) || spec_is_alpha(c))),
{
    c != '\n' && (is_space(c) || is_alpha(c))
}

pub fn char_ci_eq(a: char, b: char) -> (r: bool)
    ensures
        r == char_eq_ci(a, b),
{
    a == b || (is_alpha(a) && is_alpha(b) && ((a as u32) == (b as u32) + 32 || (b as u32) == (a
        as u32) + 32))
}

/// Whether two strings are equal up to ASCII case.
pub fn str_eq_ci(a: &str, b: &str) -> (r: bool)
    ensures
        r == seq_eq_ci(a@, b@),
{
    let av = str_to_chars(a);
    let bv = str_to_chars(b);
    if av.len() != bv.len() {
        return false;
    }
    let mut i: usize = 0;
    while i < av.len()
        invariant
            i <= av.len(),
            av@ == a@,
            bv@ == b@,
            a@.len() == b@.len(),
            av.len() == av@.len(),
            forall|j: int| 0 <= j < i ==> char_eq_ci(a@[j], b@[j]),
        decreases av.len() - i,
    {
        if !char_ci_eq(av[i], bv[i]) {
            return false;
        }
        i += 1;
    }
    true
}

} // verus!
