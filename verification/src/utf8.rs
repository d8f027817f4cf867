//! Facts about UTF-8 encoded text that the byte-level scanners rely on.
use vstd::prelude::*;
use vstd::utf8::*;

verus! {

/// An ASCII byte inside valid UTF-8 starts a character.
pub proof fn lemma_ascii_is_boundary(b: Seq<u8>, i: int)
    requires
        valid_utf8(b),
        0 <= i < b.len(),
        b[i] < 0x80,
    ensures
        is_char_boundary(b, i),
{
    is_char_boundary_iff_not_is_continuation_byte(b, i);
}

/// The position right after an ASCII byte inside valid UTF-8 starts a character
/// (or is the end of the text).
pub proof fn lemma_after_ascii_is_boundary(b: Seq<u8>, i: int)
    requires
        valid_utf8(b),
        0 <= i < b.len(),
        b[i] < 0x80,
    ensures
        is_char_boundary(b, i + 1),
    decreases b.len(),
{
    reveal_with_fuel(is_char_boundary, 2);
    let w = length_of_first_scalar(b);
    let rest = pop_first_scalar(b);
    if i == 0 {
        assert(w == 1);
        assert(is_char_boundary(rest, 0));
    } else {
        lemma_ascii_is_boundary(b, i);
        assert(i >= w);
        assert(rest[i - w] == b[i]);
        lemma_after_ascii_is_boundary(rest, i - w);
    }
}

/// Encoding distributes over concatenation of character sequences.
pub proof fn lemma_encode_concat(a: Seq<char>, b: Seq<char>)
    ensures
        encode_utf8(a + b) == encode_utf8(a) + encode_utf8(b),
    decreases a.len(),
{
    if a.len() == 0 {
        assert(a + b =~= b);
        assert(encode_utf8(a) + encode_utf8(b) =~= encode_utf8(b));
    } else {
        lemma_encode_concat(a.drop_first(), b);
        assert((a + b).drop_first() =~= a.drop_first() + b);
        assert(encode_utf8(a + b) =~= encode_utf8(a) + encode_utf8(b));
    }
}

/// A position of `b` next to an ASCII byte, or at either end.
pub open spec fn ascii_cut(b: Seq<u8>, k: int) -> bool {
    0 <= k <= b.len() && (k == 0 || k == b.len() || b[k] < 0x80 || b[k - 1] < 0x80)
}

/// Valid UTF-8 may be cut next to an ASCII byte and at either end.
pub proof fn lemma_ascii_cut(b: Seq<u8>, k: int)
    requires
        valid_utf8(b),
        ascii_cut(b, k),
    ensures
        is_char_boundary(b, k),
{
    if k == 0 || k == b.len() {
        is_char_boundary_start_end_of_seq(b);
    } else if b[k] < 0x80 {
        lemma_ascii_is_boundary(b, k);
    } else {
        lemma_after_ascii_is_boundary(b, k - 1);
    }
}

/// The encoding of ASCII characters is the characters themselves.
pub proof fn lemma_ascii_encoding(chars: Seq<char>)
    requires
        is_ascii_chars(chars),
    ensures
        encode_utf8(chars) == Seq::new(chars.len(), |i: int| chars[i] as u8),
{
    is_ascii_chars_encode_utf8(chars);
    assert(encode_utf8(chars) =~= Seq::new(chars.len(), |i: int| chars[i] as u8));
}

/// A string of ASCII characters has the bytes `expected` where those are its
/// characters one for one.
pub proof fn lemma_ascii_literal(chars: Seq<char>, expected: Seq<u8>)
    requires
        is_ascii_chars(chars),
        chars.len() == expected.len(),
        forall|i: int| 0 <= i < chars.len() ==> chars[i] as u8 == expected[i],
    ensures
        encode_utf8(chars) == expected,
{
    lemma_ascii_encoding(chars);
    assert(encode_utf8(chars) =~= expected);
}

/// The first character boundary of `b` at or after `s`.
pub open spec fn next_boundary(b: Seq<u8>, s: int) -> int
    decreases b.len() - s,
{
    if s < 0 || s >= b.len() {
        b.len() as int
    } else if is_char_boundary(b, s) {
        s
    } else {
        next_boundary(b, s + 1)
    }
}

/// The last character boundary of `b` below `k`.
pub open spec fn boundary_below(b: Seq<u8>, k: int) -> int
    decreases k,
{
    if k <= 0 {
        0
    } else if is_char_boundary(b, k - 1) {
        k - 1
    } else {
        boundary_below(b, k - 1)
    }
}

/// The character that starts at the character boundary `k`.
pub open spec fn char_at(b: Seq<u8>, k: int) -> char {
    decode_utf8(b.subrange(k, b.len() as int))[0]
}

/// The character that holds the byte before position `i`.
pub open spec fn char_before(b: Seq<u8>, i: int) -> Option<char> {
    if 0 < i <= b.len() {
        Some(char_at(b, boundary_below(b, i)))
    } else {
        None
    }
}

/// The first character that starts after position `i`.
pub open spec fn char_after(b: Seq<u8>, i: int) -> Option<char> {
    if 0 <= i && next_boundary(b, i + 1) < b.len() {
        Some(char_at(b, next_boundary(b, i + 1)))
    } else {
        None
    }
}

/// The next character boundary lies inside the text.
pub proof fn lemma_next_boundary_bounds(b: Seq<u8>, s: int)
    requires
        0 <= s <= b.len(),
    ensures
        s <= next_boundary(b, s) <= b.len(),
    decreases b.len() - s,
{
    if s < b.len() && !is_char_boundary(b, s) {
        lemma_next_boundary_bounds(b, s + 1);
    }
}

/// The next character boundary is a character boundary.
pub proof fn lemma_next_boundary_is_boundary(b: Seq<u8>, s: int)
    requires
        valid_utf8(b),
        0 <= s <= b.len(),
    ensures
        is_char_boundary(b, next_boundary(b, s)),
    decreases b.len() - s,
{
    is_char_boundary_start_end_of_seq(b);
    if s < b.len() && !is_char_boundary(b, s) {
        lemma_next_boundary_is_boundary(b, s + 1);
    }
}

/// The last character boundary below a position is a boundary below it.
pub proof fn lemma_boundary_below_bounds(b: Seq<u8>, k: int)
    requires
        valid_utf8(b),
        0 < k,
    ensures
        0 <= boundary_below(b, k) < k,
        is_char_boundary(b, boundary_below(b, k)),
    decreases k,
{
    is_char_boundary_start_end_of_seq(b);
    if k > 1 && !is_char_boundary(b, k - 1) {
        lemma_boundary_below_bounds(b, k - 1);
    }
}

} // verus!
