//! Closing emphasis that the text leaves open.
use vstd::prelude::*;
use vstd::string::*;
use vstd::utf8::*;
use crate::bytes::{
    BACKSLASH, NEWLINE, STAR, UNDERSCORE, byte_in_range, count_pairs, find_byte_from,
    find_pair_from, first_byte_from, first_pair, has_byte_in_range, has_pair_at, last_pair,
    last_triple, lemma_find_byte_from, lemma_rfind_pair_below, lemma_run_len_bound, pair_at,
    pair_count, rfind_pair, rfind_triple, rfind_triple_below, run_len, run_length, triple_at,
};
use crate::pending::fences::{
    FenceModel, FenceSpans, fence_spans, find_fence_spans, is_within_fence, within_fence,
};
use crate::pending::literals::{
    one_star, one_underscore, three_stars, two_stars, two_underscores, underscore_two_stars,
};
use crate::pending::marks::{
    byte_after, byte_before, count_triple_asterisks, is_horizontal_rule_line, is_list_marker_at,
    is_within_link_or_image_url, is_within_math_block, is_word_internal, list_marker_at,
    no_content_after, no_content_from, rule_line, triple_asterisks, within_link_address,
    within_math, word_internal,
};
use crate::text::{concat, owned, push_str, str_prefix, str_suffix};
use crate::unicode::{all_whitespace, is_all_whitespace};

verus! {

/// The asterisk at `i` does not count as a single asterisk: it is escaped, or
/// inside math, or the first of exactly two, or not the first of its run, or
/// inside a word, or a bullet.
pub open spec fn asterisk_skipped(s: Seq<u8>, i: int) -> bool {
    let prev = byte_before(s, i);
    let next = byte_after(s, i);
    prev == BACKSLASH || within_math(s, i) || (if prev != STAR && next == STAR {
        !(i + 2 < s.len() && s[i + 2] == STAR)
    } else {
        prev == STAR || word_internal(s, i) || list_marker_at(s, i)
    })
}

/// The underscore at `i` does not count as a single underscore: it is
/// escaped, or inside math, or inside a link address, or next to another
/// underscore, or inside a word.
pub open spec fn underscore_skipped(s: Seq<u8>, i: int) -> bool {
    let prev = byte_before(s, i);
    let next = byte_after(s, i);
    prev == BACKSLASH || within_math(s, i) || within_link_address(s, i) || prev == UNDERSCORE
        || next == UNDERSCORE || word_internal(s, i)
}

/// Position `i` holds an asterisk that counts as a single asterisk.
pub open spec fn counted_asterisk(s: Seq<u8>, fences: FenceModel, i: int) -> bool {
    0 <= i < s.len() && s[i] == STAR && !within_fence(fences, i) && !asterisk_skipped(s, i)
}

/// Position `i` holds an underscore that counts as a single underscore.
pub open spec fn counted_underscore(s: Seq<u8>, fences: FenceModel, i: int) -> bool {
    0 <= i < s.len() && s[i] == UNDERSCORE && !within_fence(fences, i) && !underscore_skipped(
        s,
        i,
    )
}

/// How many single asterisks the text holds from `i` on.
pub open spec fn single_asterisks_from(s: Seq<u8>, fences: FenceModel, i: int) -> nat
    decreases s.len() - i,
{
    if i < 0 || i >= s.len() {
        0
    } else {
        (if counted_asterisk(s, fences, i) {
            1nat
        } else {
            0nat
        }) + single_asterisks_from(s, fences, i + 1)
    }
}

/// How many single asterisks the text holds.
pub open spec fn single_asterisks(s: Seq<u8>, fences: FenceModel) -> nat {
    single_asterisks_from(s, fences, 0)
}

/// How many single underscores the text holds from `i` on.
pub open spec fn single_underscores_from(s: Seq<u8>, fences: FenceModel, i: int) -> nat
    decreases s.len() - i,
{
    if i < 0 || i >= s.len() {
        0
    } else {
        (if counted_underscore(s, fences, i) {
            1nat
        } else {
            0nat
        }) + single_underscores_from(s, fences, i + 1)
    }
}

/// How many single underscores the text holds.
pub open spec fn single_underscores(s: Seq<u8>, fences: FenceModel) -> nat {
    single_underscores_from(s, fences, 0)
}

/// The first single underscore at or after `i`.
pub open spec fn first_single_underscore_from(s: Seq<u8>, fences: FenceModel, i: int) -> Option<
    int,
>
    decreases s.len() - i,
{
    if i < 0 || i >= s.len() {
        None
    } else if counted_underscore(s, fences, i) {
        Some(i)
    } else {
        first_single_underscore_from(s, fences, i + 1)
    }
}

/// The first single underscore of the text.
pub open spec fn first_single_underscore(s: Seq<u8>, fences: FenceModel) -> Option<int> {
    first_single_underscore_from(s, fences, 0)
}

/// Position `i` holds an asterisk that may open italic text: outside the
/// fences and math, with no asterisk next to it, not escaped, not inside a
/// word and not a bullet.
pub open spec fn opening_asterisk(s: Seq<u8>, fences: FenceModel, i: int) -> bool {
    let prev = byte_before(s, i);
    let next = byte_after(s, i);
    0 <= i < s.len() && s[i] == STAR && !within_fence(fences, i) && prev != STAR && next != STAR
        && prev != BACKSLASH && !within_math(s, i) && !word_internal(s, i)
        && !list_marker_at(s, i)
}

/// The first asterisk at or after `i` that may open italic text.
pub open spec fn first_opening_asterisk_from(s: Seq<u8>, fences: FenceModel, i: int) -> Option<
    int,
>
    decreases s.len() - i,
{
    if i < 0 || i >= s.len() {
        None
    } else if opening_asterisk(s, fences, i) {
        Some(i)
    } else {
        first_opening_asterisk_from(s, fences, i + 1)
    }
}

/// The first asterisk of the text that may open italic text.
pub open spec fn first_opening_asterisk(s: Seq<u8>, fences: FenceModel) -> Option<int> {
    first_opening_asterisk_from(s, fences, 0)
}

/// The text with its last doubled marker closed, where that is open.
///
/// The last `mm` must have no `m` after it, stand outside the fences, have
/// more than whitespace and markers after it, and not stand on a rule line;
/// then, where the text holds an odd number of `mm`, one more is put at its end.
pub open spec fn double_marker_closed(s: Seq<u8>, fences: FenceModel, m: u8) -> Seq<u8> {
    match rfind_pair(s, m, m) {
        None => s,
        Some(idx) => if byte_in_range(s, m, idx + 2, s.len() as int) || within_fence(fences, idx)
            || no_content_from(s, idx + 2) || rule_line(s, idx, m) || count_pairs(s, m, m) % 2
            == 0 {
            s
        } else {
            s + seq![m, m]
        },
    }
}

/// The text is four or more asterisks in a row, with nothing but whitespace
/// before and after them.
pub open spec fn only_asterisks(s: Seq<u8>) -> bool {
    let p = find_byte_from(s, STAR, 0);
    let k = run_len(s, p, STAR);
    p < s.len() && k >= 4 && all_whitespace(decode_utf8(s.subrange(0, p))) && all_whitespace(
        decode_utf8(s.subrange(p + k, s.len() as int)),
    )
}

/// The doubled and the single asterisks of the text are both even in number.
pub open spec fn asterisks_balanced(s: Seq<u8>, fences: FenceModel) -> bool {
    count_pairs(s, STAR, STAR) % 2 == 0 && single_asterisks(s, fences) % 2 == 0
}

/// The text with its last `***` closed, where that is open.
///
/// A text of asterisks alone is left as it is. The last `***` must have no
/// asterisk after it, have more than whitespace and markers after it, stand
/// outside the fences and not on a rule line; then, where the groups of three
/// asterisks are odd in number and the other asterisks are not balanced, `***`
/// is put at the end.
pub open spec fn triple_marker_closed(s: Seq<u8>, fences: FenceModel) -> Seq<u8> {
    if only_asterisks(s) {
        s
    } else {
        match rfind_triple(s, STAR) {
            None => s,
            Some(idx) => if byte_in_range(s, STAR, idx + 3, s.len() as int) || no_content_from(
                s,
                idx + 3,
            ) || within_fence(fences, idx) || rule_line(s, idx, STAR) || triple_asterisks(s) % 2
                == 0 || asterisks_balanced(s, fences) {
                s
            } else {
                s + seq![STAR, STAR, STAR]
            },
        }
    }
}

/// The text with its italic asterisk closed, where that is open: the first
/// asterisk that may open italic text must have more than whitespace and
/// markers after it; then, where the single asterisks are odd in number, one
/// more is put at the end.
pub open spec fn asterisk_italic_closed(s: Seq<u8>, fences: FenceModel) -> Seq<u8> {
    match first_opening_asterisk(s, fences) {
        None => s,
        Some(i) => if no_content_from(s, i + 1) || single_asterisks(s, fences) % 2 == 0 {
            s
        } else {
            s + seq![STAR]
        },
    }
}

/// The end of the text `s[.. k]` once the newlines at its end are cut off.
pub open spec fn newline_trimmed_end(s: Seq<u8>, k: int) -> int
    decreases k,
{
    if k <= 0 || k > s.len() {
        0
    } else if s[k - 1] == NEWLINE {
        newline_trimmed_end(s, k - 1)
    } else {
        k
    }
}

/// The text with an underscore put in before the newlines at its end.
pub open spec fn with_closing_underscore(s: Seq<u8>) -> Seq<u8> {
    let e = newline_trimmed_end(s, s.len() as int);
    s.subrange(0, e) + seq![UNDERSCORE] + s.subrange(e, s.len() as int)
}

/// The text with its underscore closed inside the bold text that ends it.
///
/// This applies where the text ends in `**`, the text before that holds an
/// odd number of `**`, and the first of them stands before the first single
/// underscore: the underscore is then closed before the final `**`.
pub open spec fn nested_underscore_closed(s: Seq<u8>) -> Option<Seq<u8>> {
    if !pair_at(s, s.len() - 2, STAR, STAR) {
        None
    } else {
        let w = s.subrange(0, s.len() - 2);
        if count_pairs(w, STAR, STAR) % 2 != 1 {
            None
        } else {
            match (find_pair_from(w, STAR, STAR, 0), first_single_underscore(w, fence_spans(w))) {
                (Some(first_double), Some(underscore)) => if first_double < underscore {
                    Some(w + seq![UNDERSCORE, STAR, STAR])
                } else {
                    None
                },
                _ => None,
            }
        }
    }
}

/// The text with its italic underscore closed, where that is open: the first
/// single underscore must have more than whitespace and markers after it;
/// then, where the single underscores are odd in number, one more is put in,
/// inside the bold text that ends the text or else before the newlines at its end.
pub open spec fn underscore_italic_closed(s: Seq<u8>, fences: FenceModel) -> Seq<u8> {
    match first_single_underscore(s, fences) {
        None => s,
        Some(i) => if no_content_from(s, i + 1) || single_underscores(s, fences) % 2 == 0 {
            s
        } else {
            match nested_underscore_closed(s) {
                Some(r) => r,
                None => with_closing_underscore(s),
            }
        },
    }
}

/// Whether the asterisk at `index` does not count as a single asterisk.
pub fn should_skip_asterisk(text: &str, index: usize) -> (r: bool)
    requires
        index < text.spec_bytes().len(),
    ensures
        r == asterisk_skipped(text.spec_bytes(), index as int),
{
    let bytes = text.as_bytes();
    let n = bytes.len();
    let prev = if index > 0 {
        bytes[index - 1]
    } else {
        0
    };
    let next = if n - index > 1 {
        bytes[index + 1]
    } else {
        0
    };
    if prev == BACKSLASH {
        return true;
    }
    if is_within_math_block(text, index) {
        return true;
    }
    if prev != STAR && next == STAR {
        let next_next = if n - index > 2 {
            bytes[index + 2]
        } else {
            0
        };
        if next_next == STAR {
            return false;
        }
        return true;
    }
    if prev == STAR {
        return true;
    }
    if is_word_internal(text, index) {
        return true;
    }
    if is_list_marker_at(text, index) {
        return true;
    }
    false
}

/// How many single asterisks the text holds outside its fences.
pub fn count_single_asterisks(text: &str, spans: &FenceSpans) -> (r: usize)
    ensures
        r as nat == single_asterisks(text.spec_bytes(), spans@),
{
    let bytes = text.as_bytes();
    let n = bytes.len();
    let mut count: usize = 0;
    let mut i: usize = 0;
    while i < n
        invariant
            bytes@ == text.spec_bytes(),
            n == bytes@.len(),
            i <= n,
            count <= i,
            count + single_asterisks_from(bytes@, spans@, i as int) == single_asterisks(
                bytes@,
                spans@,
            ),
        decreases n - i,
    {
        if bytes[i] == STAR && !is_within_fence(spans, i) && !should_skip_asterisk(text, i) {
            count += 1;
        }
        i += 1;
    }
    count
}

/// Whether the underscore at `index` does not count as a single underscore.
pub fn should_skip_underscore(text: &str, index: usize) -> (r: bool)
    requires
        index < text.spec_bytes().len(),
    ensures
        r == underscore_skipped(text.spec_bytes(), index as int),
{
    let bytes = text.as_bytes();
    let n = bytes.len();
    let prev = if index > 0 {
        bytes[index - 1]
    } else {
        0
    };
    let next = if n - index > 1 {
        bytes[index + 1]
    } else {
        0
    };
    if prev == BACKSLASH {
        return true;
    }
    if is_within_math_block(text, index) {
        return true;
    }
    if is_within_link_or_image_url(text, index) {
        return true;
    }
    if prev == UNDERSCORE || next == UNDERSCORE {
        return true;
    }
    is_word_internal(text, index)
}

/// How many single underscores the text holds outside its fences.
pub fn count_single_underscores(text: &str, spans: &FenceSpans) -> (r: usize)
    ensures
        r as nat == single_underscores(text.spec_bytes(), spans@),
{
    let bytes = text.as_bytes();
    let n = bytes.len();
    let mut count: usize = 0;
    let mut i: usize = 0;
    while i < n
        invariant
            bytes@ == text.spec_bytes(),
            n == bytes@.len(),
            i <= n,
            count <= i,
            count + single_underscores_from(bytes@, spans@, i as int) == single_underscores(
                bytes@,
                spans@,
            ),
        decreases n - i,
    {
        if bytes[i] == UNDERSCORE && !is_within_fence(spans, i) && !should_skip_underscore(
            text,
            i,
        ) {
            count += 1;
        }
        i += 1;
    }
    count
}

/// Closes the last doubled marker `mm` of the text with `closing`, where it is open.
fn close_double_marker(text: &str, spans: &FenceSpans, m: u8, closing: &str) -> (r: String)
    requires
        m < 0x80,
        closing.spec_bytes() == seq![m, m],
    ensures
        encode_utf8(r@) == double_marker_closed(text.spec_bytes(), spans@, m),
{
    let bytes = text.as_bytes();
    let n = bytes.len();
    let marker_idx = match last_pair(bytes, m, m) {
        Some(i) => i,
        None => {
            return owned(text);
        },
    };
    proof {
        lemma_rfind_pair_below(bytes@, m, m, n as int);
    }
    if has_byte_in_range(bytes, m, marker_idx + 2, n) {
        return owned(text);
    }
    if is_within_fence(spans, marker_idx) {
        return owned(text);
    }
    if no_content_after(text, marker_idx + 2) {
        return owned(text);
    }
    if is_horizontal_rule_line(text, marker_idx, m) {
        return owned(text);
    }
    let pairs = pair_count(bytes, m, m);
    if pairs % 2 == 1 {
        return concat(text, closing);
    }
    owned(text)
}

/// Closes `**` that the text leaves open.
pub fn handle_incomplete_bold(text: &str, spans: &FenceSpans) -> (r: String)
    ensures
        encode_utf8(r@) == double_marker_closed(text.spec_bytes(), spans@, STAR),
{
    close_double_marker(text, spans, STAR, two_stars())
}

/// Closes `__` that the text leaves open.
pub fn handle_incomplete_double_underscore_italic(text: &str, spans: &FenceSpans) -> (r: String)
    ensures
        encode_utf8(r@) == double_marker_closed(text.spec_bytes(), spans@, UNDERSCORE),
{
    close_double_marker(text, spans, UNDERSCORE, two_underscores())
}

/// Whether position `i` holds an asterisk that may open italic text.
fn is_opening_asterisk(text: &str, spans: &FenceSpans, i: usize) -> (r: bool)
    requires
        i < text.spec_bytes().len(),
    ensures
        r == opening_asterisk(text.spec_bytes(), spans@, i as int),
{
    let bytes = text.as_bytes();
    let n = bytes.len();
    if bytes[i] != STAR {
        return false;
    }
    if is_within_fence(spans, i) {
        return false;
    }
    let prev = if i > 0 {
        bytes[i - 1]
    } else {
        0
    };
    let next = if n - i > 1 {
        bytes[i + 1]
    } else {
        0
    };
    if prev == STAR || next == STAR || prev == BACKSLASH {
        return false;
    }
    if is_within_math_block(text, i) {
        return false;
    }
    if is_word_internal(text, i) {
        return false;
    }
    !is_list_marker_at(text, i)
}

/// The first asterisk of the text that may open italic text.
fn find_first_opening_asterisk(text: &str, spans: &FenceSpans) -> (r: Option<usize>)
    ensures
        match r {
            Some(i) => first_opening_asterisk(text.spec_bytes(), spans@) == Some(i as int) && i
                < text.spec_bytes().len() && text.spec_bytes()[i as int] == STAR,
            None => first_opening_asterisk(text.spec_bytes(), spans@) is None,
        },
{
    let n = text.as_bytes().len();
    let mut i: usize = 0;
    while i < n
        invariant
            n == text.spec_bytes().len(),
            i <= n,
            first_opening_asterisk(text.spec_bytes(), spans@) == first_opening_asterisk_from(
                text.spec_bytes(),
                spans@,
                i as int,
            ),
        decreases n - i,
    {
        if is_opening_asterisk(text, spans, i) {
            return Some(i);
        }
        i += 1;
    }
    None
}

/// Closes an italic asterisk that the text leaves open.
pub fn handle_incomplete_single_asterisk_italic(text: &str, spans: &FenceSpans) -> (r: String)
    ensures
        encode_utf8(r@) == asterisk_italic_closed(text.spec_bytes(), spans@),
{
    let n = text.as_bytes().len();
    let first_idx = match find_first_opening_asterisk(text, spans) {
        Some(k) => k,
        None => {
            return owned(text);
        },
    };
    if no_content_after(text, first_idx + 1) {
        return owned(text);
    }
    let single = count_single_asterisks(text, spans);
    if single % 2 == 1 {
        return concat(text, one_star());
    }
    owned(text)
}

/// Puts an underscore in before the newlines at the end of the text.
pub fn insert_closing_underscore(text: &str) -> (r: String)
    ensures
        encode_utf8(r@) == with_closing_underscore(text.spec_bytes()),
{
    let bytes = text.as_bytes();
    let n = bytes.len();
    let mut end: usize = n;
    while end > 0 && bytes[end - 1] == NEWLINE
        invariant
            n == bytes@.len(),
            end <= n,
            end == n || bytes@[end as int] == NEWLINE,
            newline_trimmed_end(bytes@, n as int) == newline_trimmed_end(bytes@, end as int),
        decreases end,
    {
        end -= 1;
    }
    let mut out = owned(str_prefix(text, end));
    push_str(&mut out, one_underscore());
    push_str(&mut out, str_suffix(text, end));
    out
}

/// The first single underscore of the text outside its fences.
pub fn find_first_single_underscore_index(text: &str, spans: &FenceSpans) -> (r: Option<usize>)
    ensures
        match r {
            Some(i) => first_single_underscore(text.spec_bytes(), spans@) == Some(i as int) && i
                < text.spec_bytes().len() && text.spec_bytes()[i as int] == UNDERSCORE,
            None => first_single_underscore(text.spec_bytes(), spans@) is None,
        },
{
    let bytes = text.as_bytes();
    let n = bytes.len();
    let mut i: usize = 0;
    while i < n
        invariant
            bytes@ == text.spec_bytes(),
            n == bytes@.len(),
            i <= n,
            first_single_underscore(bytes@, spans@) == first_single_underscore_from(
                bytes@,
                spans@,
                i as int,
            ),
        decreases n - i,
    {
        if bytes[i] == UNDERSCORE && !is_within_fence(spans, i) && !should_skip_underscore(
            text,
            i,
        ) {
            return Some(i);
        }
        i += 1;
    }
    None
}

/// Closes an underscore inside the bold text that ends the text, where there is
/// one to close.
pub fn handle_trailing_asterisks_for_underscore(text: &str) -> (r: Option<String>)
    ensures
        match r {
            Some(out) => nested_underscore_closed(text.spec_bytes()) == Some(encode_utf8(out@)),
            None => nested_underscore_closed(text.spec_bytes()) is None,
        },
{
    let bytes = text.as_bytes();
    let n = bytes.len();
    if n < 2 || !has_pair_at(bytes, n - 2, STAR, STAR) {
        return None;
    }
    let without = str_prefix(text, n - 2);
    let wbytes = without.as_bytes();
    let pairs = pair_count(wbytes, STAR, STAR);
    if pairs % 2 != 1 {
        return None;
    }
    let first_double = match first_pair(wbytes, STAR, STAR) {
        Some(i) => i,
        None => {
            return None;
        },
    };
    let spans = find_fence_spans(without);
    let underscore_idx = match find_first_single_underscore_index(without, &spans) {
        Some(i) => i,
        None => {
            return None;
        },
    };
    if first_double < underscore_idx {
        return Some(concat(without, underscore_two_stars()));
    }
    None
}

/// Closes an italic underscore that the text leaves open.
pub fn handle_incomplete_single_underscore_italic(text: &str, spans: &FenceSpans) -> (r: String)
    ensures
        encode_utf8(r@) == underscore_italic_closed(text.spec_bytes(), spans@),
{
    let n = text.as_bytes().len();
    let first_idx = match find_first_single_underscore_index(text, spans) {
        Some(i) => i,
        None => {
            return owned(text);
        },
    };
    if no_content_after(text, first_idx + 1) {
        return owned(text);
    }
    let single = count_single_underscores(text, spans);
    if single % 2 == 1 {
        if let Some(nested) = handle_trailing_asterisks_for_underscore(text) {
            return nested;
        }
        return insert_closing_underscore(text);
    }
    owned(text)
}

/// Whether the doubled and the single asterisks are both even in number.
pub fn bold_italic_markers_balanced(text: &str, spans: &FenceSpans) -> (r: bool)
    ensures
        r == asterisks_balanced(text.spec_bytes(), spans@),
{
    let pairs = pair_count(text.as_bytes(), STAR, STAR);
    let single = count_single_asterisks(text, spans);
    pairs % 2 == 0 && single % 2 == 0
}

/// Whether the text is four or more asterisks with only whitespace around them.
fn is_only_asterisks(text: &str) -> (r: bool)
    ensures
        r == only_asterisks(text.spec_bytes()),
{
    let bytes = text.as_bytes();
    let n = bytes.len();
    let p = first_byte_from(bytes, STAR, 0);
    if p >= n {
        return false;
    }
    proof {
        lemma_find_byte_from(bytes@, STAR, 0);
        lemma_run_len_bound(bytes@, p as int, STAR);
    }
    let k = run_length(bytes, p, STAR);
    if k < 4 {
        return false;
    }
    let head = str_prefix(text, p);
    let tail = str_suffix(text, p + k);
    proof {
        encode_utf8_decode_utf8(head@);
        encode_utf8_decode_utf8(tail@);
    }
    is_all_whitespace(head) && is_all_whitespace(tail)
}

/// Closes `***` that the text leaves open.
pub fn handle_incomplete_bold_italic(text: &str, spans: &FenceSpans) -> (r: String)
    ensures
        encode_utf8(r@) == triple_marker_closed(text.spec_bytes(), spans@),
{
    if is_only_asterisks(text) {
        return owned(text);
    }
    let bytes = text.as_bytes();
    let n = bytes.len();
    let marker_idx = match last_triple(bytes, STAR) {
        Some(i) => i,
        None => {
            return owned(text);
        },
    };
    proof {
        lemma_rfind_triple_below(bytes@, STAR, n as int);
    }
    if has_byte_in_range(bytes, STAR, marker_idx + 3, n) {
        return owned(text);
    }
    if no_content_after(text, marker_idx + 3) {
        return owned(text);
    }
    if is_within_fence(spans, marker_idx) {
        return owned(text);
    }
    if is_horizontal_rule_line(text, marker_idx, STAR) {
        return owned(text);
    }
    let triple = count_triple_asterisks(text);
    if triple % 2 == 1 {
        if bold_italic_markers_balanced(text, spans) {
            return owned(text);
        }
        return concat(text, three_stars());
    }
    owned(text)
}

/// What `rfind_triple` finds is an occurrence.
pub proof fn lemma_rfind_triple_below(s: Seq<u8>, c: u8, k: int)
    ensures
        match rfind_triple_below(s, c, k) {
            Some(i) => i < k && triple_at(s, i, c),
            None => true,
        },
    decreases k,
{
    if k > 0 && !triple_at(s, k - 1, c) {
        lemma_rfind_triple_below(s, c, k - 1);
    }
}

} // verus!
