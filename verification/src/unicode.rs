//! Character classes that come from the Unicode tables of the standard library.
use vstd::prelude::*;
use vstd::string::*;
use vstd::utf8::*;
use crate::text::{boundary_from, char_from};
use crate::utf8::{char_at, lemma_next_boundary_bounds, next_boundary};

verus! {

/// Whether `char::is_whitespace` holds of `c`: the Unicode property `White_Space`.
pub uninterp spec fn unicode_whitespace(c: char) -> bool;

/// Whether `char::is_alphanumeric` holds of `c`: the Unicode property
/// `Alphabetic`, or one of the numeric general categories.
pub uninterp spec fn unicode_alphanumeric(c: char) -> bool;

/// The ASCII characters with the property `White_Space`: U+0009 to U+000D,
/// and the space.
pub open spec fn ascii_whitespace(b: u8) -> bool {
    (0x09 <= b <= 0x0d) || b == 0x20
}

/// Whitespace: among the ASCII characters the six that Unicode lists, and
/// beyond ASCII what `char::is_whitespace` says.
pub open spec fn whitespace(c: char) -> bool {
    if c as u32 <= 0x7f {
        ascii_whitespace(c as u8)
    } else {
        unicode_whitespace(c)
    }
}

/// A letter or a number: among the ASCII characters the letters and the
/// decimal digits, and beyond ASCII what `char::is_alphanumeric` says.
pub open spec fn alphanumeric(c: char) -> bool {
    if c as u32 <= 0x7f {
        ascii_alphanumeric(c as u8)
    } else {
        unicode_alphanumeric(c)
    }
}

/// Calls `char::is_whitespace`, which tells whether a character has the
/// Unicode property `White_Space`. Two things are taken on trust: that among
/// the ASCII characters these are U+0009 to U+000D and the space, as the
/// Unicode tables have it; and that beyond ASCII the answer depends on the
/// character alone, which gives it the name `unicode_whitespace`.
#[verifier::external_body]
pub(crate) fn char_is_whitespace(c: char) -> (r: bool)
    ensures
        c as u32 <= 0x7f ==> r == ascii_whitespace(c as u8),
        c as u32 > 0x7f ==> r == unicode_whitespace(c),
        r == whitespace(c),
{
    c.is_whitespace()
}

/// Calls `char::is_alphanumeric`, which tells whether a character has the
/// Unicode property `Alphabetic` or is a number. Two things are taken on
/// trust: that among the ASCII characters these are the letters and the
/// decimal digits, as the Unicode tables have it; and that beyond ASCII the
/// answer depends on the character alone, which gives it the name
/// `unicode_alphanumeric`.
#[verifier::external_body]
pub(crate) fn char_is_alphanumeric(c: char) -> (r: bool)
    ensures
        c as u32 <= 0x7f ==> r == ascii_alphanumeric(c as u8),
        c as u32 > 0x7f ==> r == unicode_alphanumeric(c),
        r == alphanumeric(c),
{
    c.is_alphanumeric()
}

/// An ASCII letter.
pub open spec fn ascii_alphabetic(b: u8) -> bool {
    (0x41 <= b <= 0x5a) || (0x61 <= b <= 0x7a)
}

/// An ASCII decimal digit.
pub open spec fn ascii_digit(b: u8) -> bool {
    0x30 <= b <= 0x39
}

/// An ASCII letter or decimal digit.
pub open spec fn ascii_alphanumeric(b: u8) -> bool {
    ascii_alphabetic(b) || ascii_digit(b)
}

/// The byte with an ASCII upper-case letter turned into its lower-case form.
pub open spec fn ascii_lower(b: u8) -> u8 {
    if 0x41 <= b <= 0x5a {
        (b + 0x20) as u8
    } else {
        b
    }
}

/// Whether the byte is an ASCII letter.
pub fn is_ascii_alphabetic(b: u8) -> (r: bool)
    ensures
        r == ascii_alphabetic(b),
{
    (0x41 <= b && b <= 0x5a) || (0x61 <= b && b <= 0x7a)
}

/// Whether the byte is an ASCII decimal digit.
pub fn is_ascii_digit(b: u8) -> (r: bool)
    ensures
        r == ascii_digit(b),
{
    0x30 <= b && b <= 0x39
}

/// Whether the byte is an ASCII letter or decimal digit.
pub fn is_ascii_alphanumeric(b: u8) -> (r: bool)
    ensures
        r == ascii_alphanumeric(b),
{
    is_ascii_alphabetic(b) || is_ascii_digit(b)
}

/// The byte with an ASCII upper-case letter turned into its lower-case form.
pub fn to_ascii_lower(b: u8) -> (r: u8)
    ensures
        r == ascii_lower(b),
{
    if 0x41 <= b && b <= 0x5a {
        b + 0x20
    } else {
        b
    }
}

/// Every character of `s` is whitespace.
pub open spec fn all_whitespace(s: Seq<char>) -> bool {
    forall|i: int| 0 <= i < s.len() ==> whitespace(#[trigger] s[i])
}

/// Whether every character of the text is whitespace.
pub fn is_all_whitespace(text: &str) -> (r: bool)
    ensures
        r == all_whitespace(text@),
{
    broadcast use vstd::string::group_string_axioms;

    let mut ok = true;
    for c in it: text.chars()
        invariant
            it.seq() == text@,
            ok == (forall|i: int| 0 <= i < it.index() ==> whitespace(#[trigger] text@[i])),
    {
        if !char_is_whitespace(c) {
            ok = false;
        }
    }
    ok
}

/// Where the first character at or after the character boundary `k` starts
/// that is not whitespace, or the length of the text.
pub open spec fn skip_whitespace(s: Seq<u8>, k: int) -> int
    decreases s.len() - k,
{
    if k < 0 || k >= s.len() {
        s.len() as int
    } else if whitespace(char_at(s, k)) && k < next_boundary(s, k + 1) <= s.len() {
        skip_whitespace(s, next_boundary(s, k + 1))
    } else {
        k
    }
}

/// Where the text starts once its leading whitespace is taken off.
pub fn leading_whitespace(text: &str) -> (r: usize)
    ensures
        r as int == skip_whitespace(text.spec_bytes(), 0),
        r <= text.spec_bytes().len(),
        is_char_boundary(text.spec_bytes(), r as int),
{
    let n = text.as_bytes().len();
    proof {
        encode_utf8_valid_utf8(text@);
        is_char_boundary_start_end_of_seq(text.spec_bytes());
    }
    let mut k: usize = 0;
    while k < n
        invariant
            n == text.spec_bytes().len(),
            k <= n,
            is_char_boundary(text.spec_bytes(), k as int),
            is_char_boundary(text.spec_bytes(), n as int),
            skip_whitespace(text.spec_bytes(), 0) == skip_whitespace(text.spec_bytes(), k as int),
        decreases n - k,
    {
        if !char_is_whitespace(char_from(text, k)) {
            return k;
        }
        proof {
            lemma_next_boundary_bounds(text.spec_bytes(), k + 1);
        }
        k = boundary_from(text, k + 1);
    }
    k
}

} // verus!
