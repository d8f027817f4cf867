//! Links and images that the text breaks off in the middle of.
use vstd::prelude::*;
use vstd::string::*;
use vstd::utf8::*;
use crate::bytes::{
    BANG, LBRACKET, LPAREN, NEWLINE, RBRACKET, RPAREN, byte_in_range, find_byte_from,
    first_byte_from, has_byte_in_range, last_pair, lemma_rfind_pair_below, rfind_pair,
};
use crate::pending::fences::{FenceModel, FenceSpans, is_within_fence, within_fence};
use crate::text::{owned, push_str, str_prefix};

verus! {

/// The opening bracket that matches a closing bracket: a scan to the left
/// from position `i` which has `depth` closing brackets still to match.
pub open spec fn matching_open_below(s: Seq<u8>, i: int, depth: nat) -> Option<int>
    decreases i,
{
    if i <= 0 || i > s.len() {
        None
    } else if s[i - 1] == RBRACKET {
        matching_open_below(s, i - 1, depth + 1)
    } else if s[i - 1] == LBRACKET {
        if depth <= 1 {
            Some(i - 1)
        } else {
            matching_open_below(s, i - 1, (depth - 1) as nat)
        }
    } else {
        matching_open_below(s, i - 1, depth)
    }
}

/// The opening bracket that matches the closing bracket at `close`.
pub open spec fn matching_open(s: Seq<u8>, close: int) -> Option<int> {
    matching_open_below(s, close, 1)
}

/// The closing bracket that matches an opening bracket: a scan to the right
/// from position `i` which has `depth` opening brackets still to match.
pub open spec fn matching_close_from(s: Seq<u8>, i: int, depth: nat) -> Option<int>
    decreases s.len() - i,
{
    if i < 0 || i >= s.len() {
        None
    } else if s[i] == LBRACKET {
        matching_close_from(s, i + 1, depth + 1)
    } else if s[i] == RBRACKET {
        if depth <= 1 {
            Some(i)
        } else {
            matching_close_from(s, i + 1, (depth - 1) as nat)
        }
    } else {
        matching_close_from(s, i + 1, depth)
    }
}

/// The closing bracket that matches the opening bracket at `open`.
pub open spec fn matching_close(s: Seq<u8>, open: int) -> Option<int> {
    matching_close_from(s, open + 1, 1)
}

/// The bytes `](`, the address and `)`.
pub open spec fn link_tail(url: Seq<u8>) -> Seq<u8> {
    seq![RBRACKET, LPAREN] + url + seq![RPAREN]
}

/// The last opening bracket below `k` that stands outside every fence and
/// has no matching closing bracket.
pub open spec fn unmatched_open_below(s: Seq<u8>, fences: FenceModel, k: int) -> Option<int>
    decreases k,
{
    if k <= 0 || k > s.len() {
        None
    } else if s[k - 1] == LBRACKET && !within_fence(fences, k - 1) && matching_close(s, k - 1)
        is None {
        Some(k - 1)
    } else {
        unmatched_open_below(s, fences, k - 1)
    }
}

/// The text with the opening bracket at `open` dealt with: an image is cut
/// off before its `!`; a link keeps `keep` bytes of the text and gets the
/// stand-in address.
pub open spec fn bracket_repaired(s: Seq<u8>, open: int, keep: int, url: Seq<u8>) -> Seq<u8> {
    if open > 0 && s[open - 1] == BANG {
        s.subrange(0, open - 1)
    } else {
        s.subrange(0, keep) + link_tail(url)
    }
}

/// What the last `](` of the text asks for, where no `)` follows it before
/// the next newline and it stands outside every fence: `None` where this rule does not apply, and
/// otherwise the answer of the whole repair.
pub open spec fn address_repair(s: Seq<u8>, fences: FenceModel, url: Seq<u8>) -> Option<
    Option<Seq<u8>>,
> {
    match rfind_pair(s, RBRACKET, LPAREN) {
        None => None,
        Some(idx) => if within_fence(fences, idx) || byte_in_range(
            s,
            RPAREN,
            idx + 2,
            find_byte_from(s, NEWLINE, idx + 2),
        ) {
            None
        } else {
            match matching_open(s, idx) {
                None => None,
                Some(open) => if within_fence(fences, open) {
                    Some(None)
                } else {
                    Some(Some(bracket_repaired(s, open, idx, url)))
                },
            }
        },
    }
}

/// The text with its incomplete link or image repaired, if it has one.
///
/// First the last `](` is looked at: where no `)` follows it on its line, the
/// link whose
/// text it ends gets the stand-in address in place of all that was written
/// after it, and an image is dropped. Otherwise the last opening bracket outside
/// the fences that nothing closes decides: a link is closed with the stand-in
/// address, an image is dropped.
pub open spec fn link_repaired(s: Seq<u8>, fences: FenceModel, url: Seq<u8>) -> Option<Seq<u8>> {
    match address_repair(s, fences, url) {
        Some(answer) => answer,
        None => match unmatched_open_below(s, fences, s.len() as int) {
            None => None,
            Some(open) => Some(bracket_repaired(s, open, s.len() as int, url)),
        },
    }
}

/// The opening bracket that matches the closing bracket at `close_index`.
pub fn find_matching_open_bracket(text: &str, close_index: usize) -> (r: Option<usize>)
    requires
        close_index <= text.spec_bytes().len(),
    ensures
        match r {
            Some(i) => matching_open(text.spec_bytes(), close_index as int) == Some(i as int)
                && i < close_index && text.spec_bytes()[i as int] == LBRACKET,
            None => matching_open(text.spec_bytes(), close_index as int) is None,
        },
{
    let bytes = text.as_bytes();
    let mut unmatched: usize = 0;
    let mut i: usize = close_index;
    while i > 0
        invariant
            bytes@ == text.spec_bytes(),
            i <= close_index <= bytes@.len(),
            unmatched <= close_index - i,
            matching_open(bytes@, close_index as int) == matching_open_below(
                bytes@,
                i as int,
                (unmatched + 1) as nat,
            ),
        decreases i,
    {
        i -= 1;
        if bytes[i] == RBRACKET {
            unmatched += 1;
        } else if bytes[i] == LBRACKET {
            if unmatched == 0 {
                return Some(i);
            }
            unmatched -= 1;
        }
    }
    None
}

/// The closing bracket that matches the opening bracket at `open_index`.
pub fn find_matching_close_bracket(text: &str, open_index: usize) -> (r: Option<usize>)
    ensures
        match r {
            Some(i) => matching_close(text.spec_bytes(), open_index as int) == Some(i as int)
                && open_index < i < text.spec_bytes().len(),
            None => matching_close(text.spec_bytes(), open_index as int) is None,
        },
{
    let bytes = text.as_bytes();
    let n = bytes.len();
    if open_index >= n {
        return None;
    }
    let mut depth: usize = 1;
    let mut i: usize = open_index + 1;
    while i < n
        invariant
            bytes@ == text.spec_bytes(),
            n == bytes@.len(),
            open_index < i <= n,
            1 <= depth <= i - open_index,
            matching_close(bytes@, open_index as int) == matching_close_from(
                bytes@,
                i as int,
                depth as nat,
            ),
        decreases bytes@.len() - i,
    {
        if bytes[i] == LBRACKET {
            depth += 1;
        } else if bytes[i] == RBRACKET {
            depth -= 1;
            if depth == 0 {
                return Some(i);
            }
        }
        i += 1;
    }
    None
}

/// The text up to `keep`, closed as a link with the stand-in address.
fn close_link(text: &str, keep: usize, incomplete_url: &str) -> (r: String)
    requires
        crate::utf8::ascii_cut(text.spec_bytes(), keep as int),
    ensures
        encode_utf8(r@) == text.spec_bytes().subrange(0, keep as int) + link_tail(
            incomplete_url.spec_bytes(),
        ),
{
    let mut out = owned(str_prefix(text, keep));
    push_str(&mut out, bracket_paren());
    push_str(&mut out, incomplete_url);
    push_str(&mut out, closing_paren());
    assert(encode_utf8(out@) =~= text.spec_bytes().subrange(0, keep as int) + link_tail(
        incomplete_url.spec_bytes(),
    ));
    out
}

/// The string `](`.
fn bracket_paren() -> (r: &'static str)
    ensures
        r.spec_bytes() == seq![RBRACKET, LPAREN],
{
    let r = "](";
    proof {
        reveal_strlit("](");
        crate::utf8::lemma_ascii_encoding(r@);
        assert(r.spec_bytes() =~= seq![RBRACKET, LPAREN]);
    }
    r
}

/// The string `)`.
fn closing_paren() -> (r: &'static str)
    ensures
        r.spec_bytes() == seq![RPAREN],
{
    let r = ")";
    proof {
        reveal_strlit(")");
        crate::utf8::lemma_ascii_encoding(r@);
        assert(r.spec_bytes() =~= seq![RPAREN]);
    }
    r
}

/// The repair that the opening bracket at `open` asks for.
fn repair_bracket(text: &str, open: usize, keep: usize, incomplete_url: &str) -> (r: String)
    requires
        open < text.spec_bytes().len(),
        text.spec_bytes()[open as int] == LBRACKET,
        crate::utf8::ascii_cut(text.spec_bytes(), keep as int),
    ensures
        encode_utf8(r@) == bracket_repaired(
            text.spec_bytes(),
            open as int,
            keep as int,
            incomplete_url.spec_bytes(),
        ),
{
    let bytes = text.as_bytes();
    if open > 0 && bytes[open - 1] == BANG {
        owned(str_prefix(text, open - 1))
    } else {
        close_link(text, keep, incomplete_url)
    }
}

/// The text with its incomplete link or image repaired, if it has one.
pub fn complete_incomplete_link_or_image(
    text: &str,
    spans: &FenceSpans,
    incomplete_url: &str,
) -> (r: Option<String>)
    ensures
        match r {
            Some(out) => link_repaired(text.spec_bytes(), spans@, incomplete_url.spec_bytes())
                == Some(encode_utf8(out@)),
            None => link_repaired(text.spec_bytes(), spans@, incomplete_url.spec_bytes())
                is None,
        },
{
    let bytes = text.as_bytes();
    let n = bytes.len();
    if let Some(idx) = last_pair(bytes, RBRACKET, LPAREN) {
        proof {
            lemma_rfind_pair_below(bytes@, RBRACKET, LPAREN, n as int);
        }
        let line_end = first_byte_from(bytes, NEWLINE, idx + 2);
        if !is_within_fence(spans, idx) && !has_byte_in_range(bytes, RPAREN, idx + 2, line_end) {
            if let Some(open) = find_matching_open_bracket(text, idx) {
                if is_within_fence(spans, open) {
                    return None;
                }
                return Some(repair_bracket(text, open, idx, incomplete_url));
            }
        }
    }
    let mut i: usize = n;
    while i > 0
        invariant
            bytes@ == text.spec_bytes(),
            n == bytes@.len(),
            i <= n,
            address_repair(bytes@, spans@, incomplete_url.spec_bytes()) is None,
            unmatched_open_below(bytes@, spans@, n as int) == unmatched_open_below(
                bytes@,
                spans@,
                i as int,
            ),
        decreases i,
    {
        i -= 1;
        if bytes[i] == LBRACKET && !is_within_fence(spans, i) {
            if find_matching_close_bracket(text, i).is_none() {
                return Some(repair_bracket(text, i, n, incomplete_url));
            }
        }
    }
    None
}

} // verus!
