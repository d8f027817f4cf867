//! The tail window, and the two repairs that come before any marker is balanced.
use vstd::prelude::*;
use vstd::string::*;
use vstd::utf8::*;
use crate::bytes::{
    DASH, EQUALS, NEWLINE, SPACE, TAB, last_byte_below, lemma_rfind_byte_below, rfind_byte,
};
use crate::utf8::next_boundary;
use crate::text::{concat, owned, str_prefix};

verus! {

/// The UTF-8 bytes of U+200B, the zero-width space.
pub open spec fn zero_width_space_bytes() -> Seq<u8> {
    seq![0xe2u8, 0x80u8, 0x8bu8]
}

/// The text without its last byte, where that is a space which no other space precedes.
pub open spec fn single_space_trimmed(s: Seq<u8>) -> Seq<u8> {
    if s.len() >= 1 && s[s.len() - 1] == SPACE && !(s.len() >= 2 && s[s.len() - 2] == SPACE) {
        s.subrange(0, s.len() - 1)
    } else {
        s
    }
}

/// Where the tail window starts: nowhere before the last `window` bytes, and
/// on a character boundary.
pub open spec fn window_start(b: Seq<u8>, window: int) -> int {
    if b.len() <= window {
        0
    } else {
        next_boundary(b, b.len() - window)
    }
}

/// The end of the text `s[lo .. k]` once the spaces and tabs at its end are cut off.
pub open spec fn blank_trimmed_end(s: Seq<u8>, lo: int, k: int) -> int
    decreases k - lo,
{
    if lo < 0 || k <= lo || k > s.len() {
        lo
    } else if s[k - 1] == SPACE || s[k - 1] == TAB {
        blank_trimmed_end(s, lo, k - 1)
    } else {
        k
    }
}

/// One or two dashes, or one or two equals signs: the start of what may become
/// a setext underline or a rule.
pub open spec fn ambiguous_underline(line: Seq<u8>) -> bool {
    line == seq![DASH] || line == seq![DASH, DASH] || line == seq![EQUALS] || line == seq![
        EQUALS,
        EQUALS,
    ]
}

/// The text with its ambiguous last line protected: where the last line,
/// spaces and tabs at its end aside, is an ambiguous underline and the line
/// before it is not empty, the line ends in a zero-width space instead.
pub open spec fn setext_protected(text: Seq<u8>) -> Seq<u8> {
    let t = single_space_trimmed(text);
    match rfind_byte(t, NEWLINE) {
        None => t,
        Some(nl) => {
            let end = blank_trimmed_end(t, nl + 1, t.len() as int);
            if nl == 0 || t[nl - 1] == NEWLINE {
                t
            } else if ambiguous_underline(t.subrange(nl + 1, end)) {
                t.subrange(0, end) + zero_width_space_bytes()
            } else {
                t
            }
        },
    }
}

/// The zero-width space as a string.
pub fn zero_width_space() -> (r: &'static str)
    ensures
        r.spec_bytes() == zero_width_space_bytes(),
{
    let r = "\u{200B}";
    proof {
        reveal_strlit("\u{200B}");
        let c = r@[0] as u32;
        assert(c == 0x200b);
        assert(r@.drop_first() =~= Seq::<char>::empty());
        assert(encode_utf8(r@.drop_first()) =~= Seq::<u8>::empty());
        assert(0xE0 | ((c >> 12) & 0x0F) as u8 == 0xe2u8) by (bit_vector)
            requires
                c == 0x200b,
        ;
        assert(0x80 | ((c >> 6) & 0x3F) as u8 == 0x80u8) by (bit_vector)
            requires
                c == 0x200b,
        ;
        assert(0x80 | (c & 0x3F) as u8 == 0x8bu8) by (bit_vector)
            requires
                c == 0x200b,
        ;
        assert(encode_scalar(c) =~= zero_width_space_bytes());
        assert(encode_utf8(r@) =~= zero_width_space_bytes());
    }
    r
}

/// The text without the single space at its end, if it has one.
pub fn trim_trailing_single_space(text: &str) -> (r: &str)
    ensures
        r.spec_bytes() == single_space_trimmed(text.spec_bytes()),
{
    let bytes = text.as_bytes();
    let n = bytes.len();
    if n >= 1 && bytes[n - 1] == SPACE && !(n >= 2 && bytes[n - 2] == SPACE) {
        str_prefix(text, n - 1)
    } else {
        text
    }
}

/// The tail window of the text, and where in the text it starts.
pub fn tail_window(text: &str, window_bytes: usize) -> (r: (&str, usize))
    ensures
        r.1 as int == window_start(text.spec_bytes(), window_bytes as int),
        r.1 <= text.spec_bytes().len(),
        is_char_boundary(text.spec_bytes(), r.1 as int),
        r.0.spec_bytes() == text.spec_bytes().subrange(
            r.1 as int,
            text.spec_bytes().len() as int,
        ),
{
    let n = text.as_bytes().len();
    proof {
        encode_utf8_valid_utf8(text@);
        is_char_boundary_start_end_of_seq(text.spec_bytes());
    }
    if n <= window_bytes {
        assert(text.spec_bytes().subrange(0, n as int) =~= text.spec_bytes());
        return (text, 0);
    }
    let start = n - window_bytes;
    let mut s: usize = start;
    while !text.is_char_boundary(s)
        invariant
            n == text.spec_bytes().len(),
            start <= s <= n,
            is_char_boundary(text.spec_bytes(), n as int),
            next_boundary(text.spec_bytes(), start as int) == next_boundary(
                text.spec_bytes(),
                s as int,
            ),
        decreases n - s,
    {
        s += 1;
    }
    let (_head, tail) = text.split_at(s);
    (tail, s)
}

/// The text with its ambiguous last line protected by a zero-width space.
pub fn apply_setext_heading_protection(text: &str) -> (r: String)
    ensures
        encode_utf8(r@) == setext_protected(text.spec_bytes()),
{
    let trimmed = trim_trailing_single_space(text);
    let bytes = trimmed.as_bytes();
    let n = bytes.len();
    let last_nl = match last_byte_below(bytes, NEWLINE, n) {
        Some(i) => i,
        None => {
            return owned(trimmed);
        },
    };
    proof {
        lemma_rfind_byte_below(bytes@, NEWLINE, n as int);
    }
    if last_nl == 0 {
        return owned(trimmed);
    }
    if bytes[last_nl - 1] == NEWLINE {
        return owned(trimmed);
    }
    let mut end: usize = n;
    while end > last_nl + 1 && (bytes[end - 1] == SPACE || bytes[end - 1] == TAB)
        invariant
            last_nl + 1 <= end <= n,
            n == bytes@.len(),
            blank_trimmed_end(bytes@, last_nl + 1, n as int) == blank_trimmed_end(
                bytes@,
                last_nl + 1,
                end as int,
            ),
        decreases end,
    {
        end -= 1;
    }
    let len = end - (last_nl + 1);
    let first = if len >= 1 {
        bytes[last_nl + 1]
    } else {
        0
    };
    let ambiguous = (len == 1 && (first == DASH || first == EQUALS)) || (len == 2 && (first == DASH
        || first == EQUALS) && bytes[last_nl + 2] == first);
    proof {
        let line = bytes@.subrange(last_nl + 1, end as int);
        if ambiguous {
            if len == 1 {
                assert(line =~= seq![first]);
            } else {
                assert(line =~= seq![first, first]);
            }
        } else {
            if line == seq![DASH] || line == seq![EQUALS] {
                assert(line.len() == 1);
                assert(line[0] == first);
            } else if line == seq![DASH, DASH] || line == seq![EQUALS, EQUALS] {
                assert(line.len() == 2);
                assert(line[0] == first);
                assert(line[1] == bytes@[last_nl + 2]);
            }
        }
    }
    if ambiguous {
        let head = str_prefix(trimmed, end);
        return concat(head, zero_width_space());
    }
    owned(trimmed)
}

} // verus!
