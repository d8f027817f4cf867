//! The terminator: from the raw pending tail to a text that is safe to render.
use vstd::prelude::*;
use vstd::string::*;
use vstd::utf8::*;
use crate::bytes::{STAR, UNDERSCORE};
use crate::pending::balance::{
    balance_inline_code, balance_katex_block, balance_strikethrough, inline_code_closed,
    math_block_closed, strikethrough_closed,
};
use crate::pending::emphasis::{
    asterisk_italic_closed, double_marker_closed, handle_incomplete_bold,
    handle_incomplete_bold_italic, handle_incomplete_double_underscore_italic,
    handle_incomplete_single_asterisk_italic, handle_incomplete_single_underscore_italic,
    triple_marker_closed, underscore_italic_closed,
};
use crate::pending::fences::{fence_spans, find_fence_spans};
use crate::pending::links::{complete_incomplete_link_or_image, link_repaired, link_tail};
use crate::pending::window::{
    apply_setext_heading_protection, setext_protected, single_space_trimmed, tail_window,
    trim_trailing_single_space, window_start,
};
use crate::text::{concat, owned, push_str};

verus! {

/// Which repairs the terminator makes, and on how much of the text.
#[derive(Debug, Clone)]
pub struct TerminatorOptions {
    pub setext_headings: bool,
    pub links: bool,
    pub images: bool,
    pub emphasis: bool,
    pub inline_code: bool,
    pub strikethrough: bool,
    pub katex_block: bool,
    /// The address given to a link that breaks off before its own.
    pub incomplete_link_url: String,
    /// How many bytes at the end of the text the repairs look at.
    pub window_bytes: usize,
}

/// The mathematical value of [`TerminatorOptions`].
pub struct TerminatorRules {
    pub setext_headings: bool,
    pub links: bool,
    pub images: bool,
    pub emphasis: bool,
    pub inline_code: bool,
    pub strikethrough: bool,
    pub katex_block: bool,
    pub incomplete_link_url: Seq<u8>,
    pub window_bytes: int,
}

impl View for TerminatorOptions {
    type V = TerminatorRules;

    open spec fn view(&self) -> TerminatorRules {
        TerminatorRules {
            setext_headings: self.setext_headings,
            links: self.links,
            images: self.images,
            emphasis: self.emphasis,
            inline_code: self.inline_code,
            strikethrough: self.strikethrough,
            katex_block: self.katex_block,
            incomplete_link_url: encode_utf8(self.incomplete_link_url@),
            window_bytes: self.window_bytes as int,
        }
    }
}

impl Default for TerminatorOptions {
    fn default() -> (r: Self)
        ensures
            r.setext_headings,
            r.links,
            r.images,
            r.emphasis,
            r.inline_code,
            r.strikethrough,
            r.katex_block,
            r.incomplete_link_url@ == "streamdown:incomplete-link"@,
            r.window_bytes == 16384,
    {
        TerminatorOptions {
            setext_headings: true,
            links: true,
            images: true,
            emphasis: true,
            inline_code: true,
            strikethrough: true,
            katex_block: true,
            incomplete_link_url: String::from_str("streamdown:incomplete-link"),
            window_bytes: 16384,
        }
    }
}

/// The text ends with the bytes `tail`.
pub open spec fn ends_with(s: Seq<u8>, tail: Seq<u8>) -> bool {
    s.len() >= tail.len() && s.subrange(s.len() - tail.len(), s.len() as int) == tail
}

/// The tail with its emphasis closed: `***`, then `**`, then `__`, then the
/// single asterisk, then the single underscore, each on what the one before
/// left and with the fences of that text.
pub open spec fn emphasis_closed(t: Seq<u8>) -> Seq<u8> {
    let a = triple_marker_closed(t, fence_spans(t));
    let b = double_marker_closed(a, fence_spans(a), STAR);
    let c = double_marker_closed(b, fence_spans(b), UNDERSCORE);
    let d = asterisk_italic_closed(c, fence_spans(c));
    underscore_italic_closed(d, fence_spans(d))
}

/// The tail with its markers balanced: emphasis, inline code, strikethrough
/// and block math in this order, each where the rules ask for it.
pub open spec fn markers_closed(t: Seq<u8>, rules: TerminatorRules) -> Seq<u8> {
    let a = if rules.emphasis {
        emphasis_closed(t)
    } else {
        t
    };
    let b = if rules.inline_code {
        inline_code_closed(a, fence_spans(a))
    } else {
        a
    };
    let c = if rules.strikethrough {
        strikethrough_closed(b, fence_spans(b))
    } else {
        b
    };
    if rules.katex_block {
        math_block_closed(c, fence_spans(c))
    } else {
        c
    }
}

/// The repair of an incomplete link or image that the rules ask for.
pub open spec fn link_step(tail: Seq<u8>, rules: TerminatorRules) -> Option<Seq<u8>> {
    if rules.links || rules.images {
        link_repaired(tail, fence_spans(tail), rules.incomplete_link_url)
    } else {
        None
    }
}

/// The tail made safe to render, once its last line is protected.
///
/// A tail that ends inside an open fence stays as it is. A link that got the
/// stand-in address ends the work. Otherwise the markers are balanced, on the
/// tail without its dropped image where one was dropped.
pub open spec fn tail_terminated(tail: Seq<u8>, rules: TerminatorRules) -> Seq<u8> {
    if fence_spans(tail).unclosed_from is Some {
        tail
    } else {
        match link_step(tail, rules) {
            Some(p) => if ends_with(p, link_tail(rules.incomplete_link_url)) {
                p
            } else {
                markers_closed(p, rules)
            },
            None => markers_closed(tail, rules),
        }
    }
}

/// The display text of a pending tail.
///
/// A single space at the end is dropped. The bytes before the tail window stay
/// as they are; the window has its ambiguous last line protected, where the
/// rules ask for it, and is then made safe to render.
pub open spec fn terminated(text: Seq<u8>, rules: TerminatorRules) -> Seq<u8> {
    if text.len() == 0 {
        text
    } else {
        let t = single_space_trimmed(text);
        let start = window_start(t, rules.window_bytes);
        let window = t.subrange(start, t.len() as int);
        let tail = if rules.setext_headings {
            setext_protected(window)
        } else {
            window
        };
        t.subrange(0, start) + tail_terminated(tail, rules)
    }
}

/// Whether the bytes `b` end with the bytes `tail`.
fn bytes_end_with(b: &[u8], tail: &[u8]) -> (r: bool)
    ensures
        r == ends_with(b@, tail@),
{
    let n = b.len();
    let m = tail.len();
    if n < m {
        return false;
    }
    let mut i: usize = 0;
    while i < m
        invariant
            n == b@.len(),
            m == tail@.len(),
            m <= n,
            i <= m,
            forall|j: int| 0 <= j < i ==> b@[n - m + j] == tail@[j],
        decreases m - i,
    {
        if b[n - m + i] != tail[i] {
            assert(b@.subrange(n - m, n as int)[i as int] != tail@[i as int]);
            return false;
        }
        i += 1;
    }
    assert(b@.subrange(n - m, n as int) =~= tail@);
    true
}

/// Emphasis closed on the tail, step by step.
fn close_emphasis(tail: String) -> (r: String)
    ensures
        encode_utf8(r@) == emphasis_closed(encode_utf8(tail@)),
{
    let spans = find_fence_spans(tail.as_str());
    let a = handle_incomplete_bold_italic(tail.as_str(), &spans);
    let spans = find_fence_spans(a.as_str());
    let b = handle_incomplete_bold(a.as_str(), &spans);
    let spans = find_fence_spans(b.as_str());
    let c = handle_incomplete_double_underscore_italic(b.as_str(), &spans);
    let spans = find_fence_spans(c.as_str());
    let d = handle_incomplete_single_asterisk_italic(c.as_str(), &spans);
    let spans = find_fence_spans(d.as_str());
    handle_incomplete_single_underscore_italic(d.as_str(), &spans)
}

/// The markers of the tail balanced as the options ask.
fn close_markers(tail: String, opts: &TerminatorOptions) -> (r: String)
    ensures
        encode_utf8(r@) == markers_closed(encode_utf8(tail@), opts@),
{
    let mut tail = tail;
    if opts.emphasis {
        tail = close_emphasis(tail);
    }
    if opts.inline_code {
        let spans = find_fence_spans(tail.as_str());
        tail = balance_inline_code(tail.as_str(), &spans);
    }
    if opts.strikethrough {
        let spans = find_fence_spans(tail.as_str());
        tail = balance_strikethrough(tail.as_str(), &spans);
    }
    if opts.katex_block {
        let spans = find_fence_spans(tail.as_str());
        tail = balance_katex_block(tail.as_str(), &spans);
    }
    tail
}

/// The prepared tail made safe to render.
fn terminate_tail(tail: String, opts: &TerminatorOptions) -> (r: String)
    ensures
        encode_utf8(r@) == tail_terminated(encode_utf8(tail@), opts@),
{
    let spans = find_fence_spans(tail.as_str());
    if spans.unclosed_from.is_some() {
        return tail;
    }
    let mut tail = tail;
    if opts.links || opts.images {
        if let Some(processed) = complete_incomplete_link_or_image(
            tail.as_str(),
            &spans,
            opts.incomplete_link_url.as_str(),
        ) {
            let mut closing = String::from_str("](");
            proof {
                reveal_strlit("](");
                crate::utf8::lemma_ascii_literal(
                    closing@,
                    seq![crate::bytes::RBRACKET, crate::bytes::LPAREN],
                );
            }
            push_str(&mut closing, opts.incomplete_link_url.as_str());
            push_str(&mut closing, ")");
            proof {
                reveal_strlit(")");
                crate::utf8::lemma_ascii_literal(")"@, seq![crate::bytes::RPAREN]);
                assert(encode_utf8(closing@) =~= link_tail(opts@.incomplete_link_url));
            }
            if bytes_end_with(processed.as_str().as_bytes(), closing.as_str().as_bytes()) {
                return processed;
            }
            tail = processed;
        }
    }
    close_markers(tail, opts)
}

/// Terminates a streaming Markdown tail, so that what is shown does not
/// change its meaning while more text arrives.
///
/// Only the tail window is looked at; the text before it is handed back as it is.
pub fn terminate_markdown(text: &str, opts: &TerminatorOptions) -> (r: String)
    ensures
        encode_utf8(r@) == terminated(text.spec_bytes(), opts@),
{
    if text.as_bytes().len() == 0 {
        return String::new();
    }
    let text = trim_trailing_single_space(text);
    let (window, offset) = tail_window(text, opts.window_bytes);
    proof {
        encode_utf8_valid_utf8(text@);
    }
    let (prefix, _rest) = text.split_at(offset);
    let tail = if opts.setext_headings {
        apply_setext_heading_protection(window)
    } else {
        owned(window)
    };
    let done = terminate_tail(tail, opts);
    concat(prefix, done.as_str())
}

} // verus!
