//! Cutting and joining string slices, stated over their UTF-8 bytes.
use vstd::prelude::*;
use vstd::string::*;
use vstd::utf8::*;
use crate::utf8::{
    ascii_cut, boundary_below, char_at, lemma_ascii_cut, lemma_boundary_below_bounds,
    lemma_encode_concat, next_boundary,
};

verus! {

/// The bytes of the text before position `k`.
pub fn str_prefix<'a>(text: &'a str, k: usize) -> (r: &'a str)
    requires
        ascii_cut(text.spec_bytes(), k as int),
    ensures
        r.spec_bytes() == text.spec_bytes().subrange(0, k as int),
{
    proof {
        encode_utf8_valid_utf8(text@);
        lemma_ascii_cut(text.spec_bytes(), k as int);
    }
    let (a, _b) = text.split_at(k);
    a
}

/// The bytes of the text from position `k` on.
pub fn str_suffix<'a>(text: &'a str, k: usize) -> (r: &'a str)
    requires
        ascii_cut(text.spec_bytes(), k as int),
    ensures
        r.spec_bytes() == text.spec_bytes().subrange(k as int, text.spec_bytes().len() as int),
{
    proof {
        encode_utf8_valid_utf8(text@);
        lemma_ascii_cut(text.spec_bytes(), k as int);
    }
    let (_a, b) = text.split_at(k);
    b
}

/// The bytes of the text from position `i` up to position `j`.
pub fn str_range<'a>(text: &'a str, i: usize, j: usize) -> (r: &'a str)
    requires
        i <= j,
        ascii_cut(text.spec_bytes(), i as int),
        ascii_cut(text.spec_bytes(), j as int),
    ensures
        r.spec_bytes() == text.spec_bytes().subrange(i as int, j as int),
{
    let head = str_prefix(text, j);
    let r = str_suffix(head, i);
    assert(r.spec_bytes() =~= text.spec_bytes().subrange(i as int, j as int));
    r
}

/// An owned copy of the text.
pub fn owned(text: &str) -> (r: String)
    ensures
        r@ == text@,
        encode_utf8(r@) == text.spec_bytes(),
{
    String::from_str(text)
}

/// Appends `tail` to `out`.
pub fn push_str(out: &mut String, tail: &str)
    ensures
        final(out)@ == old(out)@ + tail@,
        encode_utf8(final(out)@) == encode_utf8(old(out)@) + tail.spec_bytes(),
{
    proof {
        lemma_encode_concat(out@, tail@);
    }
    out.append(tail);
}

/// The two texts joined.
pub fn concat(a: &str, b: &str) -> (r: String)
    ensures
        r@ == a@ + b@,
        encode_utf8(r@) == a.spec_bytes() + b.spec_bytes(),
{
    let mut out = String::from_str(a);
    push_str(&mut out, b);
    out
}

/// The first character boundary at or after `k`.
pub fn boundary_from(text: &str, k: usize) -> (r: usize)
    requires
        k <= text.spec_bytes().len(),
    ensures
        r as int == next_boundary(text.spec_bytes(), k as int),
        k <= r <= text.spec_bytes().len(),
        is_char_boundary(text.spec_bytes(), r as int),
{
    let n = text.as_bytes().len();
    proof {
        encode_utf8_valid_utf8(text@);
        is_char_boundary_start_end_of_seq(text.spec_bytes());
    }
    let mut r: usize = k;
    while r < n && !text.is_char_boundary(r)
        invariant
            n == text.spec_bytes().len(),
            k <= r <= n,
            is_char_boundary(text.spec_bytes(), n as int),
            next_boundary(text.spec_bytes(), k as int) == next_boundary(
                text.spec_bytes(),
                r as int,
            ),
        decreases n - r,
    {
        r += 1;
    }
    r
}

/// The last character boundary below `k`.
pub fn boundary_before(text: &str, k: usize) -> (r: usize)
    requires
        0 < k <= text.spec_bytes().len(),
    ensures
        r as int == boundary_below(text.spec_bytes(), k as int),
        r < k,
        is_char_boundary(text.spec_bytes(), r as int),
{
    proof {
        encode_utf8_valid_utf8(text@);
        lemma_boundary_below_bounds(text.spec_bytes(), k as int);
    }
    let mut r: usize = k - 1;
    while r > 0 && !text.is_char_boundary(r)
        invariant
            r < k,
            boundary_below(text.spec_bytes(), k as int) == (if is_char_boundary(
                text.spec_bytes(),
                r as int,
            ) {
                r as int
            } else {
                boundary_below(text.spec_bytes(), r as int)
            }),
        decreases r,
    {
        r -= 1;
    }
    r
}

/// The character that starts at the character boundary `k`.
pub fn char_from(text: &str, k: usize) -> (c: char)
    requires
        k < text.spec_bytes().len(),
        is_char_boundary(text.spec_bytes(), k as int),
    ensures
        c == char_at(text.spec_bytes(), k as int),
{
    let (_head, tail) = text.split_at(k);
    proof {
        encode_utf8_valid_utf8(tail@);
        encode_utf8_decode_utf8(tail@);
        assert(tail.spec_bytes().len() > 0);
    }
    tail.get_char(0)
}

} // verus!
