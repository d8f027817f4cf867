//! Fenced code spans of a text.
use vstd::prelude::*;
use vstd::string::*;
use vstd::utf8::*;
use crate::bytes::{
    BACKTICK, NEWLINE, TILDE, find_byte_from, first_byte_from, indent, leading_indent,
    lemma_find_byte_from, run_len, run_length,
};
use crate::text::str_range;

verus! {

/// The character a fence line is made of.
#[derive(Debug, Clone, Copy, PartialEq, Eq, Structural)]
pub enum FenceChar {
    Backtick,
    Tilde,
}

/// A closed fenced span: the bytes `start .. end` of the text.
#[derive(Debug, Clone)]
pub struct FenceSpan {
    pub start: usize,
    pub end: usize,
}

/// The fenced spans of a text: the closed ones in order, and the start of a
/// fence that is still open at the end of the text.
#[derive(Debug, Clone)]
pub struct FenceSpans {
    pub spans: Vec<FenceSpan>,
    pub unclosed_from: Option<usize>,
}

/// The mathematical value of [`FenceSpans`].
pub struct FenceModel {
    pub spans: Seq<(int, int)>,
    pub unclosed_from: Option<int>,
}

/// A fence that a scan has seen open and not yet close.
pub struct OpenFence {
    pub ch: FenceChar,
    pub len: nat,
    pub start: int,
}

impl FenceSpan {
    pub open spec fn spec_contains(&self, pos: int) -> bool {
        self.start <= pos < self.end
    }

    /// Whether the position lies in the span.
    pub fn contains(&self, pos: usize) -> (r: bool)
        ensures
            r == self.spec_contains(pos as int),
    {
        pos >= self.start && pos < self.end
    }
}

impl View for FenceSpans {
    type V = FenceModel;

    open spec fn view(&self) -> FenceModel {
        FenceModel {
            spans: Seq::new(
                self.spans@.len(),
                |i: int| (self.spans@[i].start as int, self.spans@[i].end as int),
            ),
            unclosed_from: match self.unclosed_from {
                Some(s) => Some(s as int),
                None => None,
            },
        }
    }
}

/// What a line says as a fence line: after at most three spaces, a run of
/// three or more backticks or tildes. Gives the character and the run's length.
pub open spec fn fence_line(line: Seq<u8>) -> Option<(FenceChar, nat)> {
    let i = indent(line);
    if i >= line.len() {
        None
    } else if line[i] == BACKTICK && run_len(line, i, BACKTICK) >= 3 {
        Some((FenceChar::Backtick, run_len(line, i, BACKTICK)))
    } else if line[i] == TILDE && run_len(line, i, TILDE) >= 3 {
        Some((FenceChar::Tilde, run_len(line, i, TILDE)))
    } else {
        None
    }
}

/// The position is inside a closed span, or at or after the start of the open fence.
pub open spec fn within_fence(m: FenceModel, pos: int) -> bool {
    (exists|i: int| 0 <= i < m.spans.len() && (#[trigger] m.spans[i]).0 <= pos < m.spans[i].1)
        || (m.unclosed_from is Some && pos >= m.unclosed_from->0)
}

/// The state of a scan after the line `start .. end` of the text.
pub open spec fn fence_step(
    text: Seq<u8>,
    start: int,
    end: int,
    open: Option<OpenFence>,
    acc: Seq<(int, int)>,
) -> (Option<OpenFence>, Seq<(int, int)>) {
    match fence_line(text.subrange(start, end)) {
        None => (open, acc),
        Some((ch, len)) => match open {
            None => (Some(OpenFence { ch, len, start }), acc),
            Some(o) => if o.ch == ch && len >= o.len {
                let close_end = if end < text.len() {
                    end + 1
                } else {
                    end
                };
                (None, acc.push((o.start, close_end)))
            } else {
                (open, acc)
            },
        },
    }
}

/// The fenced spans that a scan finds which stands at the line start `start`,
/// has `open` as its open fence and has closed the spans `acc`.
///
/// A fence opens at a fence line; it closes at the next fence line of the same
/// character whose run is at least as long, and the closed span runs from the
/// start of the opening line through the newline of the closing line.
pub open spec fn scan_fences(
    text: Seq<u8>,
    start: int,
    open: Option<OpenFence>,
    acc: Seq<(int, int)>,
) -> FenceModel
    decreases text.len() - start,
{
    if start < 0 || start > text.len() {
        FenceModel { spans: acc, unclosed_from: None }
    } else {
        let end = find_byte_from(text, NEWLINE, start);
        let next = fence_step(text, start, end, open, acc);
        if start <= end < text.len() {
            scan_fences(text, end + 1, next.0, next.1)
        } else {
            FenceModel {
                spans: next.1,
                unclosed_from: match next.0 {
                    Some(o) => Some(o.start),
                    None => None,
                },
            }
        }
    }
}

/// The fenced spans of a text.
pub open spec fn fence_spans(text: Seq<u8>) -> FenceModel {
    scan_fences(text, 0, None, Seq::empty())
}

/// What the line says as a fence line: the fence character and the length of
/// its run.
pub fn parse_fence_line(line: &str) -> (r: Option<(FenceChar, usize)>)
    ensures
        match r {
            Some((ch, n)) => fence_line(line.spec_bytes()) == Some((ch, n as nat)),
            None => fence_line(line.spec_bytes()) is None,
        },
{
    let bytes = line.as_bytes();
    let i = leading_indent(bytes);
    if i >= bytes.len() {
        return None;
    }
    let ch = bytes[i];
    if ch == BACKTICK {
        let count = run_length(bytes, i, BACKTICK);
        if count < 3 {
            return None;
        }
        Some((FenceChar::Backtick, count))
    } else if ch == TILDE {
        let count = run_length(bytes, i, TILDE);
        if count < 3 {
            return None;
        }
        Some((FenceChar::Tilde, count))
    } else {
        None
    }
}

/// Where the lines of the text start, from the line start `start` on:
/// `start` itself, and the position after each newline from there on.
pub open spec fn line_starts_from(s: Seq<u8>, start: int) -> Seq<int>
    decreases s.len() - start,
{
    if start < 0 || start > s.len() {
        Seq::empty()
    } else {
        let end = find_byte_from(s, NEWLINE, start);
        if start <= end < s.len() {
            seq![start] + line_starts_from(s, end + 1)
        } else {
            seq![start]
        }
    }
}

/// Where the lines of the text start: at 0, and after each newline. A text
/// that ends in a newline has an empty last line, which starts at its end.
pub open spec fn line_starts(s: Seq<u8>) -> Seq<int> {
    line_starts_from(s, 0)
}

/// The line starts are `start` and the positions after the newlines that
/// follow it, and no others.
pub proof fn lemma_line_starts(s: Seq<u8>, start: int, k: int)
    requires
        0 <= start <= s.len(),
    ensures
        line_starts_from(s, start).contains(k) <==> (k == start || (start < k <= s.len() && s[k
            - 1] == NEWLINE)),
    decreases s.len() - start,
{
    let end = find_byte_from(s, NEWLINE, start);
    lemma_find_byte_from(s, NEWLINE, start);
    let here = seq![start];
    assert(here[0] == start);
    if end < s.len() {
        let rest = line_starts_from(s, end + 1);
        lemma_line_starts(s, end + 1, k);
        let all = here + rest;
        if all.contains(k) {
            let i = choose|i: int| 0 <= i < all.len() && all[i] == k;
            if i > 0 {
                assert(rest[i - 1] == k);
            }
        }
        if k == start {
            assert(all[0] == k);
        } else if rest.contains(k) {
            let i = choose|i: int| 0 <= i < rest.len() && rest[i] == k;
            assert(all[i + 1] == k);
        }
    }
}

/// Where the lines of the text start.
pub fn line_start_indices(text: &str) -> (r: Vec<usize>)
    ensures
        r@.len() == line_starts(text.spec_bytes()).len(),
        forall|i: int| 0 <= i < r@.len() ==> r@[i] as int == line_starts(text.spec_bytes())[i],
{
    let bytes = text.as_bytes();
    let n = bytes.len();
    let mut out: Vec<usize> = Vec::new();
    let mut start: usize = 0;
    let ghost mut done: Seq<int> = Seq::empty();
    loop
        invariant_except_break
            line_starts(bytes@) == done + line_starts_from(bytes@, start as int),
        invariant
            n == bytes@.len(),
            bytes@ == text.spec_bytes(),
            start <= n,
            out@.len() == done.len(),
            forall|i: int| 0 <= i < out@.len() ==> out@[i] as int == done[i],
        ensures
            line_starts(bytes@) == done,
        decreases n - start,
    {
        out.push(start);
        let end = first_byte_from(bytes, NEWLINE, start);
        proof {
            assert(done + seq![start as int] + line_starts_from(bytes@, end + 1) =~= done + (
            seq![start as int] + line_starts_from(bytes@, end + 1)));
            assert(done + seq![start as int] =~= done.push(start as int));
            done = done.push(start as int);
        }
        if end < n {
            start = end + 1;
        } else {
            break;
        }
    }
    out
}

/// The fenced spans of the text.
pub fn find_fence_spans(text: &str) -> (r: FenceSpans)
    ensures
        r@ == fence_spans(text.spec_bytes()),
{
    let bytes = text.as_bytes();
    let n = bytes.len();
    let starts = line_start_indices(text);
    let mut spans: Vec<FenceSpan> = Vec::new();
    let mut in_fence: Option<(FenceChar, usize, usize)> = None;
    let mut idx: usize = 0;
    let ghost all = line_starts(bytes@);
    let ghost mut open: Option<OpenFence> = None;
    let ghost mut acc: Seq<(int, int)> = Seq::empty();
    proof {
        assert(all.subrange(0, all.len() as int) =~= all);
    }
    while idx < starts.len()
        invariant
            bytes@ == text.spec_bytes(),
            n == bytes@.len(),
            all == line_starts(bytes@),
            starts@.len() == all.len(),
            forall|i: int| 0 <= i < starts@.len() ==> starts@[i] as int == all[i],
            idx <= starts@.len(),
            idx < starts@.len() ==> starts@[idx as int] <= n && all.subrange(
                idx as int,
                all.len() as int,
            ) == line_starts_from(bytes@, starts@[idx as int] as int) && fence_spans(bytes@)
                == scan_fences(bytes@, starts@[idx as int] as int, open, acc),
            idx == starts@.len() ==> fence_spans(bytes@) == (FenceModel {
                spans: acc,
                unclosed_from: match open {
                    Some(o) => Some(o.start),
                    None => None,
                },
            }),
            acc.len() == spans@.len(),
            forall|i: int|
                0 <= i < acc.len() ==> acc[i] == (
                    (#[trigger] spans@[i]).start as int,
                    spans@[i].end as int,
                ),
            match in_fence {
                Some((ch, len, at)) => open == Some(
                    OpenFence { ch, len: len as nat, start: at as int },
                ),
                None => open is None,
            },
        decreases starts@.len() - idx,
    {
        let start = starts[idx];
        let end = first_byte_from(bytes, NEWLINE, start);
        proof {
            lemma_find_byte_from(bytes@, NEWLINE, start as int);
            assert(all[idx as int] == start);
            lemma_line_starts(bytes@, 0, start as int);
        }
        let line = str_range(text, start, end);
        let ghost before = (open, acc);
        match parse_fence_line(line) {
            Some((ch, len)) => {
                match in_fence {
                    None => {
                        in_fence = Some((ch, len, start));
                        proof {
                            open = Some(OpenFence { ch, len: len as nat, start: start as int });
                        }
                    },
                    Some((open_ch, open_len, open_start)) => {
                        if open_ch == ch && len >= open_len {
                            let close_end = if end < n {
                                end + 1
                            } else {
                                end
                            };
                            spans.push(FenceSpan { start: open_start, end: close_end });
                            in_fence = None;
                            proof {
                                acc = acc.push((open_start as int, close_end as int));
                                open = None;
                            }
                        }
                    },
                }
            },
            None => {},
        }
        proof {
            assert((open, acc) == fence_step(
                bytes@,
                start as int,
                end as int,
                before.0,
                before.1,
            ));
            let here = all.subrange(idx as int, all.len() as int);
            let next = all.subrange(idx + 1, all.len() as int);
            assert(next =~= here.subrange(1, here.len() as int));
            if end < n {
                let rest = line_starts_from(bytes@, end + 1);
                assert((seq![start as int] + rest).subrange(1, here.len() as int) =~= rest);
                assert(rest.len() > 0);
                assert(next[0] == rest[0]);
            } else {
                assert(here.len() == 1);
            }
        }
        idx += 1;
    }
    let r = FenceSpans {
        spans,
        unclosed_from: match in_fence {
            Some((_, _, at)) => Some(at),
            None => None,
        },
    };
    assert(r@.spans =~= acc);
    r
}

/// Whether the position is inside a closed span or after the start of the open
/// fence.
pub fn is_within_fence(spans: &FenceSpans, pos: usize) -> (r: bool)
    ensures
        r == within_fence(spans@, pos as int),
{
    let mut i: usize = 0;
    while i < spans.spans.len()
        invariant
            i <= spans.spans@.len(),
            forall|j: int|
                0 <= j < i ==> !((#[trigger] spans@.spans[j]).0 <= pos < spans@.spans[j].1),
        decreases spans.spans@.len() - i,
    {
        if spans.spans[i].contains(pos) {
            assert(spans@.spans[i as int].0 <= pos < spans@.spans[i as int].1);
            return true;
        }
        i += 1;
    }
    match spans.unclosed_from {
        Some(s) => pos >= s,
        None => false,
    }
}

/// The spans that a scan has closed lie inside the text before `upto`, and
/// the fence that it holds open starts there.
pub open spec fn spans_within(open: Option<OpenFence>, acc: Seq<(int, int)>, upto: int) -> bool {
    &&& forall|i: int| 0 <= i < acc.len() ==> 0 <= (#[trigger] acc[i]).0 <= acc[i].1 <= upto
    &&& open is Some ==> 0 <= open->0.start <= upto
}

/// A scan keeps its spans inside the text.
pub proof fn lemma_scan_within(
    text: Seq<u8>,
    start: int,
    open: Option<OpenFence>,
    acc: Seq<(int, int)>,
)
    requires
        0 <= start <= text.len(),
        spans_within(open, acc, start),
    ensures
        forall|i: int|
            0 <= i < scan_fences(text, start, open, acc).spans.len() ==> 0 <= (
            #[trigger] scan_fences(text, start, open, acc).spans[i]).0 <= scan_fences(
                text,
                start,
                open,
                acc,
            ).spans[i].1 <= text.len(),
        scan_fences(text, start, open, acc).unclosed_from is Some ==> 0 <= scan_fences(
            text,
            start,
            open,
            acc,
        ).unclosed_from->0 <= text.len(),
    decreases text.len() - start,
{
    let end = find_byte_from(text, NEWLINE, start);
    lemma_find_byte_from(text, NEWLINE, start);
    let next = fence_step(text, start, end, open, acc);
    if end < text.len() {
        assert(spans_within(next.0, next.1, end + 1));
        lemma_scan_within(text, end + 1, next.0, next.1);
    } else {
        assert(spans_within(next.0, next.1, text.len() as int));
    }
}

/// Every fenced span of a text lies inside the text.
pub proof fn lemma_fence_spans_within(text: Seq<u8>)
    ensures
        forall|i: int|
            0 <= i < fence_spans(text).spans.len() ==> 0 <= (#[trigger] fence_spans(
                text,
            ).spans[i]).0 <= fence_spans(text).spans[i].1 <= text.len(),
        fence_spans(text).unclosed_from is Some ==> 0 <= fence_spans(text).unclosed_from->0
            <= text.len(),
{
    lemma_scan_within(text, 0, None, Seq::empty());
}

} // verus!
