//! Closing inline code, strikethrough and block math that the text leaves open.
use vstd::prelude::*;
use vstd::string::*;
use vstd::utf8::*;
use crate::bytes::{BACKSLASH, BACKTICK, DOLLAR, TILDE, has_pair_at, pair_at};
use crate::pending::fences::{FenceModel, FenceSpans, is_within_fence, within_fence};
use crate::pending::literals::{one_backtick, two_dollars, two_tildes};
use crate::pending::marks::byte_before;
use crate::text::{concat, owned};

verus! {

/// Position `i` holds a backtick outside the fences that no backslash escapes.
pub open spec fn counted_backtick(s: Seq<u8>, fences: FenceModel, i: int) -> bool {
    0 <= i < s.len() && s[i] == BACKTICK && !within_fence(fences, i) && byte_before(s, i)
        != BACKSLASH
}

/// How many unescaped backticks outside the fences the text holds from `i` on.
pub open spec fn backticks_from(s: Seq<u8>, fences: FenceModel, i: int) -> nat
    decreases s.len() - i,
{
    if i < 0 || i >= s.len() {
        0
    } else {
        (if counted_backtick(s, fences, i) {
            1nat
        } else {
            0nat
        }) + backticks_from(s, fences, i + 1)
    }
}

/// The text with a backtick put at its end, where its unescaped backticks
/// outside the fences are odd in number.
pub open spec fn inline_code_closed(s: Seq<u8>, fences: FenceModel) -> Seq<u8> {
    if backticks_from(s, fences, 0) % 2 == 1 {
        s + seq![BACKTICK]
    } else {
        s
    }
}

/// How many `~~` outside the fences a scan from `i` finds, which steps over
/// each pair it finds.
pub open spec fn tilde_pairs_from(s: Seq<u8>, fences: FenceModel, i: int) -> nat
    decreases s.len() - i,
{
    if i < 0 || i + 1 >= s.len() {
        0
    } else if pair_at(s, i, TILDE, TILDE) && !within_fence(fences, i) {
        1 + tilde_pairs_from(s, fences, i + 2)
    } else {
        tilde_pairs_from(s, fences, i + 1)
    }
}

/// The text with `~~` put at its end, where its `~~` outside the fences are
/// odd in number.
pub open spec fn strikethrough_closed(s: Seq<u8>, fences: FenceModel) -> Seq<u8> {
    if tilde_pairs_from(s, fences, 0) % 2 == 1 {
        s + seq![TILDE, TILDE]
    } else {
        s
    }
}

/// How many unescaped `$$` outside the fences a scan from `i` finds, which
/// steps over each pair it finds, escaped or not.
pub open spec fn dollar_pairs_from(s: Seq<u8>, fences: FenceModel, i: int) -> nat
    decreases s.len() - i,
{
    if i < 0 || i + 1 >= s.len() {
        0
    } else if pair_at(s, i, DOLLAR, DOLLAR) && !within_fence(fences, i) {
        (if byte_before(s, i) == BACKSLASH {
            0nat
        } else {
            1nat
        }) + dollar_pairs_from(s, fences, i + 2)
    } else {
        dollar_pairs_from(s, fences, i + 1)
    }
}

/// The text with `$$` put at its end, where its unescaped `$$` outside the
/// fences are odd in number.
pub open spec fn math_block_closed(s: Seq<u8>, fences: FenceModel) -> Seq<u8> {
    if dollar_pairs_from(s, fences, 0) % 2 == 1 {
        s + seq![DOLLAR, DOLLAR]
    } else {
        s
    }
}

/// Closes inline code that the text leaves open.
pub fn balance_inline_code(text: &str, spans: &FenceSpans) -> (r: String)
    ensures
        encode_utf8(r@) == inline_code_closed(text.spec_bytes(), spans@),
{
    let bytes = text.as_bytes();
    let n = bytes.len();
    let mut count: usize = 0;
    let mut i: usize = 0;
    while i < n
        invariant
            n == bytes@.len(),
            bytes@ == text.spec_bytes(),
            i <= n,
            count <= i,
            count + backticks_from(bytes@, spans@, i as int) == backticks_from(bytes@, spans@, 0),
        decreases n - i,
    {
        if bytes[i] == BACKTICK && !is_within_fence(spans, i) && (i == 0 || bytes[i - 1]
            != BACKSLASH) {
            count += 1;
        }
        i += 1;
    }
    if count % 2 == 1 {
        concat(text, one_backtick())
    } else {
        owned(text)
    }
}

/// Closes strikethrough that the text leaves open.
pub fn balance_strikethrough(text: &str, spans: &FenceSpans) -> (r: String)
    ensures
        encode_utf8(r@) == strikethrough_closed(text.spec_bytes(), spans@),
{
    let bytes = text.as_bytes();
    let n = bytes.len();
    let mut count: usize = 0;
    let mut i: usize = 0;
    while i < n
        invariant
            n == bytes@.len(),
            bytes@ == text.spec_bytes(),
            i <= n,
            count <= i,
            count + tilde_pairs_from(bytes@, spans@, i as int) == tilde_pairs_from(
                bytes@,
                spans@,
                0,
            ),
        decreases n - i,
    {
        if has_pair_at(bytes, i, TILDE, TILDE) && !is_within_fence(spans, i) {
            count += 1;
            i += 2;
        } else {
            i += 1;
        }
    }
    if count % 2 == 1 {
        concat(text, two_tildes())
    } else {
        owned(text)
    }
}

/// Closes block math that the text leaves open.
pub fn balance_katex_block(text: &str, spans: &FenceSpans) -> (r: String)
    ensures
        encode_utf8(r@) == math_block_closed(text.spec_bytes(), spans@),
{
    let bytes = text.as_bytes();
    let n = bytes.len();
    let mut count: usize = 0;
    let mut i: usize = 0;
    while i < n
        invariant
            n == bytes@.len(),
            bytes@ == text.spec_bytes(),
            i <= n,
            count <= i,
            count + dollar_pairs_from(bytes@, spans@, i as int) == dollar_pairs_from(
                bytes@,
                spans@,
                0,
            ),
        decreases n - i,
    {
        if has_pair_at(bytes, i, DOLLAR, DOLLAR) && !is_within_fence(spans, i) {
            if !(i > 0 && bytes[i - 1] == BACKSLASH) {
                count += 1;
            }
            i += 2;
        } else {
            i += 1;
        }
    }
    if count % 2 == 1 {
        concat(text, two_dollars())
    } else {
        owned(text)
    }
}

} // verus!
