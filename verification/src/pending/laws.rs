//! What holds of the terminator on every text.
use vstd::prelude::*;
use crate::bytes::{
    LBRACKET, LPAREN, NEWLINE, RBRACKET, RPAREN, STAR, UNDERSCORE, byte_in_range, count_pairs,
    lemma_rfind_pair_below, pair_at, rfind_pair,
};
use crate::pending::balance::{backticks_from, dollar_pairs_from, tilde_pairs_from};
use crate::pending::emphasis::{
    asterisk_italic_closed, double_marker_closed, single_asterisks, single_underscores,
    triple_marker_closed, underscore_italic_closed,
};
use crate::pending::fences::{FenceModel, fence_spans};
use crate::pending::links::{
    address_repair, link_repaired, link_tail, unmatched_open_below,
};
use crate::pending::marks::triple_asterisks;
use crate::pending::terminator::{
    TerminatorRules, emphasis_closed, ends_with, link_step, markers_closed, tail_terminated,
    terminated,
};
use crate::pending::window::{setext_protected, single_space_trimmed, window_start};
use crate::utf8::lemma_next_boundary_bounds;

verus! {

/// The first is the start of the second.
pub open spec fn is_prefix(a: Seq<u8>, b: Seq<u8>) -> bool {
    a.len() <= b.len() && b.subrange(0, a.len() as int) == a
}

/// A tail that is closed as far as the rules look: no fence is open, no link
/// or image breaks off, and each kind of marker that the rules balance occurs
/// an even number of times.
pub open spec fn balanced_tail(t: Seq<u8>, rules: TerminatorRules) -> bool {
    let f = fence_spans(t);
    &&& f.unclosed_from is None
    &&& link_step(t, rules) is None
    &&& rules.emphasis ==> {
        &&& triple_asterisks(t) % 2 == 0
        &&& count_pairs(t, STAR, STAR) % 2 == 0
        &&& count_pairs(t, UNDERSCORE, UNDERSCORE) % 2 == 0
        &&& single_asterisks(t, f) % 2 == 0
        &&& single_underscores(t, f) % 2 == 0
    }
    &&& rules.inline_code ==> backticks_from(t, f, 0) % 2 == 0
    &&& rules.strikethrough ==> tilde_pairs_from(t, f, 0) % 2 == 0
    &&& rules.katex_block ==> dollar_pairs_from(t, f, 0) % 2 == 0
}

/// The window of a text as the terminator prepares it: with its ambiguous
/// last line protected, where the rules ask for it.
pub open spec fn prepared_window(text: Seq<u8>, rules: TerminatorRules) -> Seq<u8> {
    let start = window_start(text, rules.window_bytes);
    let window = text.subrange(start, text.len() as int);
    if rules.setext_headings {
        setext_protected(window)
    } else {
        window
    }
}

/// The tail window starts inside the text.
pub proof fn lemma_window_start_bounds(b: Seq<u8>, window: int)
    requires
        window >= 0,
    ensures
        0 <= window_start(b, window) <= b.len(),
{
    if b.len() > window {
        lemma_next_boundary_bounds(b, b.len() - window);
    }
}

/// The terminator leaves a balanced tail as it is.
pub proof fn lemma_balanced_tail_is_unchanged(t: Seq<u8>, rules: TerminatorRules)
    requires
        balanced_tail(t, rules),
    ensures
        tail_terminated(t, rules) == t,
{
    let f = fence_spans(t);
    if rules.emphasis {
        assert(triple_marker_closed(t, f) == t);
        assert(double_marker_closed(t, f, STAR) == t);
        assert(double_marker_closed(t, f, UNDERSCORE) == t);
        assert(asterisk_italic_closed(t, f) == t);
        assert(underscore_italic_closed(t, f) == t);
        assert(emphasis_closed(t) == t);
    }
    assert(markers_closed(t, rules) == t);
}

/// Terminating a closed text changes nothing but its ambiguous last line:
/// where the text does not end in a single space and its window, once
/// prepared, is balanced, the result is the text with that window prepared;
/// and the text itself where the preparation leaves the window alone.
pub proof fn lemma_closed_text_is_unchanged(text: Seq<u8>, rules: TerminatorRules)
    requires
        text.len() > 0,
        rules.window_bytes >= 0,
        single_space_trimmed(text) == text,
        balanced_tail(prepared_window(text, rules), rules),
    ensures
        terminated(text, rules) == text.subrange(0, window_start(text, rules.window_bytes))
            + prepared_window(text, rules),
        prepared_window(text, rules) == text.subrange(
            window_start(text, rules.window_bytes),
            text.len() as int,
        ) ==> terminated(text, rules) == text,
{
    lemma_window_start_bounds(text, rules.window_bytes);
    lemma_balanced_tail_is_unchanged(prepared_window(text, rules), rules);
    let start = window_start(text, rules.window_bytes);
    assert(text.subrange(0, start) + text.subrange(start, text.len() as int) =~= text);
}

/// A tail that ends inside an open fence comes back as it is.
pub proof fn lemma_open_fence_is_left_alone(t: Seq<u8>, rules: TerminatorRules)
    requires
        fence_spans(t).unclosed_from is Some,
    ensures
        tail_terminated(t, rules) == t,
{
}

/// The tail as it reaches the last emphasis step, the one for the single underscore.
pub open spec fn before_underscore_step(t: Seq<u8>) -> Seq<u8> {
    let a = triple_marker_closed(t, fence_spans(t));
    let b = double_marker_closed(a, fence_spans(a), STAR);
    let c = double_marker_closed(b, fence_spans(b), UNDERSCORE);
    asterisk_italic_closed(c, fence_spans(c))
}

/// The terminator does no more to the tail than put something at its end:
/// a link, if one is repaired, is closed at the very end, and otherwise the
/// underscore that closes italic text, if one is needed, goes to the very end.
pub open spec fn only_appends(t: Seq<u8>, rules: TerminatorRules) -> bool {
    let d = before_underscore_step(t);
    let u = underscore_italic_closed(d, fence_spans(d));
    match link_step(t, rules) {
        Some(p) => is_prefix(t, p) && ends_with(p, link_tail(rules.incomplete_link_url)),
        None => rules.emphasis ==> u == d || u == d + seq![UNDERSCORE],
    }
}


/// A text is the start of itself and of itself with more at its end.
pub proof fn lemma_prefix_of_appended(a: Seq<u8>, m: Seq<u8>)
    ensures
        is_prefix(a, a),
        is_prefix(a, a + m),
{
    assert(a.subrange(0, a.len() as int) =~= a);
    assert((a + m).subrange(0, a.len() as int) =~= a);
}

/// The start of the start of a text is a start of the text.
pub proof fn lemma_prefix_transitive(a: Seq<u8>, b: Seq<u8>, c: Seq<u8>)
    requires
        is_prefix(a, b),
        is_prefix(b, c),
    ensures
        is_prefix(a, c),
{
    assert(c.subrange(0, a.len() as int) =~= c.subrange(0, b.len() as int).subrange(
        0,
        a.len() as int,
    ));
}

/// Each step but the one for the single underscore hands back its text, or
/// its text with a marker at the end.
pub proof fn lemma_steps_append(s: Seq<u8>, f: FenceModel)
    ensures
        is_prefix(s, triple_marker_closed(s, f)),
        is_prefix(s, double_marker_closed(s, f, STAR)),
        is_prefix(s, double_marker_closed(s, f, UNDERSCORE)),
        is_prefix(s, asterisk_italic_closed(s, f)),
        is_prefix(s, crate::pending::balance::inline_code_closed(s, f)),
        is_prefix(s, crate::pending::balance::strikethrough_closed(s, f)),
        is_prefix(s, crate::pending::balance::math_block_closed(s, f)),
{
    lemma_prefix_of_appended(s, seq![STAR, STAR, STAR]);
    lemma_prefix_of_appended(s, seq![STAR, STAR]);
    lemma_prefix_of_appended(s, seq![UNDERSCORE, UNDERSCORE]);
    lemma_prefix_of_appended(s, seq![STAR]);
    lemma_prefix_of_appended(s, seq![crate::bytes::BACKTICK]);
    lemma_prefix_of_appended(s, seq![crate::bytes::TILDE, crate::bytes::TILDE]);
    lemma_prefix_of_appended(s, seq![crate::bytes::DOLLAR, crate::bytes::DOLLAR]);
}

/// The tail is the start of what the emphasis steps before the last make of it.
pub proof fn lemma_emphasis_appends(t: Seq<u8>)
    ensures
        is_prefix(t, before_underscore_step(t)),
{
    let a = triple_marker_closed(t, fence_spans(t));
    let b = double_marker_closed(a, fence_spans(a), STAR);
    let c = double_marker_closed(b, fence_spans(b), UNDERSCORE);
    let d = asterisk_italic_closed(c, fence_spans(c));
    lemma_steps_append(t, fence_spans(t));
    lemma_steps_append(a, fence_spans(a));
    lemma_steps_append(b, fence_spans(b));
    lemma_steps_append(c, fence_spans(c));
    lemma_prefix_transitive(t, a, b);
    lemma_prefix_transitive(t, b, c);
    lemma_prefix_transitive(t, c, d);
}

/// Where the terminator only puts something at the end of the tail, the
/// tail is the start of the result.
pub proof fn lemma_appending_keeps_the_tail(t: Seq<u8>, rules: TerminatorRules)
    requires
        only_appends(t, rules),
    ensures
        is_prefix(t, tail_terminated(t, rules)),
{
    lemma_prefix_of_appended(t, Seq::empty());
    if fence_spans(t).unclosed_from is None && link_step(t, rules) is None {
        let d = before_underscore_step(t);
        let m1 = if rules.emphasis {
            emphasis_closed(t)
        } else {
            t
        };
        if rules.emphasis {
            lemma_emphasis_appends(t);
            lemma_prefix_of_appended(d, seq![UNDERSCORE]);
            lemma_prefix_transitive(t, d, m1);
        }
        let m2 = if rules.inline_code {
            crate::pending::balance::inline_code_closed(m1, fence_spans(m1))
        } else {
            m1
        };
        let m3 = if rules.strikethrough {
            crate::pending::balance::strikethrough_closed(m2, fence_spans(m2))
        } else {
            m2
        };
        lemma_steps_append(m1, fence_spans(m1));
        lemma_steps_append(m2, fence_spans(m2));
        lemma_steps_append(m3, fence_spans(m3));
        lemma_prefix_of_appended(m1, Seq::empty());
        lemma_prefix_of_appended(m2, Seq::empty());
        lemma_prefix_of_appended(m3, Seq::empty());
        lemma_prefix_transitive(t, m1, m2);
        lemma_prefix_transitive(t, m2, m3);
        lemma_prefix_transitive(t, m3, markers_closed(t, rules));
    }
}

/// Nothing inside a closed fence changes: where the terminator only puts
/// something at the end of the tail, the result holds every closed fenced
/// span of the tail byte for byte.
pub proof fn lemma_closed_fences_are_inert(t: Seq<u8>, rules: TerminatorRules, i: int)
    requires
        only_appends(t, rules),
        0 <= i < fence_spans(t).spans.len(),
    ensures
        tail_terminated(t, rules).subrange(fence_spans(t).spans[i].0, fence_spans(t).spans[i].1)
            == t.subrange(fence_spans(t).spans[i].0, fence_spans(t).spans[i].1),
{
    lemma_appending_keeps_the_tail(t, rules);
    crate::pending::fences::lemma_fence_spans_within(t);
    let out = tail_terminated(t, rules);
    let s = fence_spans(t).spans[i].0;
    let e = fence_spans(t).spans[i].1;
    assert(out.subrange(0, t.len() as int).subrange(s, e) =~= out.subrange(s, e));
}

/// No position of `s` holds a newline.
pub open spec fn one_line(s: Seq<u8>) -> bool {
    forall|i: int| 0 <= i < s.len() ==> s[i] != NEWLINE
}

/// A text that ends with the closing of a link, whose address is on one
/// line, has no `](` left whose address is open.
pub proof fn lemma_closed_address_needs_no_repair(p: Seq<u8>, fences: FenceModel, url: Seq<u8>)
    requires
        ends_with(p, link_tail(url)),
        one_line(url),
    ensures
        address_repair(p, fences, url) is None,
{
    let tail = link_tail(url);
    let r = p.len() - tail.len();
    assert(tail.len() == url.len() + 3);
    assert forall|i: int| r <= i < p.len() implies p[i] == #[trigger] tail[i - r] by {
        assert(p.subrange(r, p.len() as int)[i - r] == tail[i - r]);
    }
    assert(pair_at(p, r, RBRACKET, LPAREN)) by {
        assert(p[r] == tail[0]);
        assert(p[r + 1] == tail[1]);
    }
    assert(p[p.len() - 1] == RPAREN) by {
        assert(p[p.len() - 1] == tail[tail.len() - 1]);
    }
    lemma_rfind_pair_below(p, RBRACKET, LPAREN, p.len() as int);
    let idx = rfind_pair(p, RBRACKET, LPAREN)->0;
    assert(r <= idx);
    assert(idx + 2 <= p.len() - 1);
    let end = crate::bytes::find_byte_from(p, NEWLINE, idx + 2);
    crate::bytes::lemma_find_byte_from(p, NEWLINE, idx + 2);
    if end < p.len() {
        assert(p[end] == tail[end - r]);
        if end - r < tail.len() - 1 {
            assert(tail[end - r] == url[end - r - 2]);
        }
        assert(false);
    }
    assert(byte_in_range(p, RPAREN, idx + 2, end));
}

/// Putting in the stand-in address is done in one pass: once a link has got
/// it, the repair finds nothing more to do on the result, as long as the
/// address is on one line and the result has no other opening bracket outside
/// its fences that nothing closes.
pub proof fn lemma_link_insertion_settles(s: Seq<u8>, url: Seq<u8>)
    requires
        one_line(url),
        link_repaired(s, fence_spans(s), url) is Some,
        ends_with(link_repaired(s, fence_spans(s), url)->0, link_tail(url)),
        unmatched_open_below(
            link_repaired(s, fence_spans(s), url)->0,
            fence_spans(link_repaired(s, fence_spans(s), url)->0),
            link_repaired(s, fence_spans(s), url)->0.len() as int,
        ) is None,
    ensures
        link_repaired(
            link_repaired(s, fence_spans(s), url)->0,
            fence_spans(link_repaired(s, fence_spans(s), url)->0),
            url,
        ) is None,
{
    let p = link_repaired(s, fence_spans(s), url)->0;
    lemma_closed_address_needs_no_repair(p, fence_spans(p), url);
}

/// Only the tail window is touched: the bytes before it come back as they are.
pub proof fn lemma_before_the_window_is_kept(text: Seq<u8>, rules: TerminatorRules)
    requires
        text.len() > 0,
        rules.window_bytes >= 0,
    ensures
        is_prefix(
            single_space_trimmed(text).subrange(
                0,
                window_start(single_space_trimmed(text), rules.window_bytes),
            ),
            terminated(text, rules),
        ),
{
    let t = single_space_trimmed(text);
    lemma_window_start_bounds(t, rules.window_bytes);
    let start = window_start(t, rules.window_bytes);
    assert(terminated(text, rules).subrange(0, start) =~= t.subrange(0, start));
}

/// At most one position of `s` holds an opening bracket.
pub open spec fn single_open(s: Seq<u8>) -> bool {
    forall|i: int, j: int|
        0 <= i < s.len() && 0 <= j < s.len() && s[i] == LBRACKET && s[j] == LBRACKET ==> i == j
}

/// No position of `s` holds a bracket.
pub open spec fn no_brackets(s: Seq<u8>) -> bool {
    forall|i: int| 0 <= i < s.len() ==> s[i] != LBRACKET && s[i] != RBRACKET
}

/// With no bracket in between, the next closing bracket is the matching one.
pub proof fn lemma_close_is_next(p: Seq<u8>, i: int, j: int)
    requires
        0 <= i <= j < p.len(),
        p[j] == RBRACKET,
        forall|k: int| i <= k < j ==> p[k] != LBRACKET && p[k] != RBRACKET,
    ensures
        crate::pending::links::matching_close_from(p, i, 1) == Some(j),
    decreases j - i,
{
    if i < j {
        lemma_close_is_next(p, i + 1, j);
    }
}

/// Where every opening bracket has its closing bracket, none is left unmatched.
pub proof fn lemma_all_matched(p: Seq<u8>, fences: FenceModel, k: int)
    requires
        k <= p.len(),
        forall|i: int|
            0 <= i < p.len() && p[i] == LBRACKET ==> crate::pending::links::matching_close(p, i)
                is Some,
    ensures
        unmatched_open_below(p, fences, k) is None,
    decreases k,
{
    if k > 0 {
        lemma_all_matched(p, fences, k - 1);
    }
}

/// In a text with one opening bracket, putting in the stand-in address is
/// done in one pass: the repair finds nothing more to do on its result. This
/// holds for every stand-in address on one line without brackets.
pub proof fn lemma_single_link_settles(s: Seq<u8>, url: Seq<u8>)
    requires
        single_open(s),
        no_brackets(url),
        one_line(url),
        link_repaired(s, fence_spans(s), url) is Some,
        ends_with(link_repaired(s, fence_spans(s), url)->0, link_tail(url)),
    ensures
        link_repaired(
            link_repaired(s, fence_spans(s), url)->0,
            fence_spans(link_repaired(s, fence_spans(s), url)->0),
            url,
        ) is None,
{
    let p = link_repaired(s, fence_spans(s), url)->0;
    let tail = link_tail(url);
    let r = p.len() - tail.len();
    assert(tail.len() == url.len() + 3);
    assert forall|i: int| 0 <= i < tail.len() implies tail[i] != LBRACKET by {
        if 2 <= i < 2 + url.len() {
            assert(tail[i] == url[i - 2]);
        }
    }
    assert(p[r] == RBRACKET) by {
        assert(p.subrange(r, p.len() as int)[0] == tail[0]);
    }
    assert forall|i: int| r <= i < p.len() implies p[i] != LBRACKET by {
        assert(p.subrange(r, p.len() as int)[i - r] == tail[i - r]);
    }
    // Every byte of the result that is not of the closing comes from the text.
    assert(exists|keep: int|
        0 <= keep <= s.len() && keep <= p.len() && p.subrange(0, keep) == s.subrange(0, keep) && (
        keep == p.len() || keep == r)) by {
        lemma_repair_shape(s, fence_spans(s), url);
    }
    let keep = choose|keep: int|
        0 <= keep <= s.len() && keep <= p.len() && p.subrange(0, keep) == s.subrange(0, keep) && (
        keep == p.len() || keep == r);
    assert forall|i: int, j: int|
        0 <= i < p.len() && 0 <= j < p.len() && p[i] == LBRACKET && p[j] == LBRACKET implies i
        == j by {
        assert(i < keep && j < keep);
        assert(p.subrange(0, keep)[i] == s.subrange(0, keep)[i]);
        assert(p.subrange(0, keep)[j] == s.subrange(0, keep)[j]);
    }
    assert forall|i: int|
        0 <= i < p.len() && p[i] == LBRACKET implies crate::pending::links::matching_close(p, i)
        is Some by {
        let j = crate::bytes::find_byte_from(p, RBRACKET, i + 1);
        crate::bytes::lemma_find_byte_from(p, RBRACKET, i + 1);
        assert(i < r);
        assert(j <= r);
        lemma_close_is_next(p, i + 1, j);
    }
    lemma_all_matched(p, fence_spans(p), p.len() as int);
    lemma_closed_address_needs_no_repair(p, fence_spans(p), url);
}

/// A repaired text is a start of the text, alone or with the closing of a
/// link after it.
pub proof fn lemma_repair_shape(s: Seq<u8>, fences: FenceModel, url: Seq<u8>)
    requires
        link_repaired(s, fences, url) is Some,
    ensures
        exists|keep: int|
            0 <= keep <= s.len() && keep <= link_repaired(s, fences, url)->0.len()
                && link_repaired(s, fences, url)->0.subrange(0, keep) == s.subrange(0, keep) && (
            keep == link_repaired(s, fences, url)->0.len() || keep == link_repaired(
                s,
                fences,
                url,
            )->0.len() - link_tail(url).len()),
{
    let p = link_repaired(s, fences, url)->0;
    let tail = link_tail(url);
    match address_repair(s, fences, url) {
        Some(answer) => {
            let idx = rfind_pair(s, RBRACKET, LPAREN)->0;
            lemma_rfind_pair_below(s, RBRACKET, LPAREN, s.len() as int);
            let open = crate::pending::links::matching_open(s, idx)->0;
            lemma_matching_open_bounds(s, idx, 1);
            lemma_shape_of(s, open, idx, url);
        },
        None => {
            let open = unmatched_open_below(s, fences, s.len() as int)->0;
            lemma_unmatched_bounds(s, fences, s.len() as int);
            lemma_shape_of(s, open, s.len() as int, url);
        },
    }
}

/// The shape of a bracket's repair.
pub proof fn lemma_shape_of(s: Seq<u8>, open: int, keep: int, url: Seq<u8>)
    requires
        0 <= open < s.len(),
        0 <= keep <= s.len(),
    ensures
        ({
            let p = crate::pending::links::bracket_repaired(s, open, keep, url);
            exists|k: int|
                0 <= k <= s.len() && k <= p.len() && p.subrange(0, k) == s.subrange(0, k) && (k
                    == p.len() || k == p.len() - link_tail(url).len())
        }),
{
    let p = crate::pending::links::bracket_repaired(s, open, keep, url);
    if open > 0 && s[open - 1] == crate::bytes::BANG {
        assert(p.subrange(0, open - 1) =~= s.subrange(0, open - 1));
        assert(open - 1 == p.len());
    } else {
        assert(p.subrange(0, keep) =~= s.subrange(0, keep));
        assert(keep == p.len() - link_tail(url).len());
    }
}

/// A matching opening bracket lies before the closing bracket.
pub proof fn lemma_matching_open_bounds(s: Seq<u8>, i: int, depth: nat)
    requires
        i <= s.len(),
    ensures
        crate::pending::links::matching_open_below(s, i, depth) is Some ==> 0
            <= crate::pending::links::matching_open_below(s, i, depth)->0 < i,
    decreases i,
{
    if i > 0 {
        lemma_matching_open_bounds(s, i - 1, depth + 1);
        lemma_matching_open_bounds(s, i - 1, depth);
        if depth > 1 {
            lemma_matching_open_bounds(s, i - 1, (depth - 1) as nat);
        }
    }
}

/// An unmatched opening bracket lies in the text.
pub proof fn lemma_unmatched_bounds(s: Seq<u8>, fences: FenceModel, k: int)
    requires
        k <= s.len(),
    ensures
        unmatched_open_below(s, fences, k) is Some ==> 0 <= unmatched_open_below(s, fences, k)->0
            < k,
    decreases k,
{
    if k > 0 {
        lemma_unmatched_bounds(s, fences, k - 1);
    }
}

} // verus!
