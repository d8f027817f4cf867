//! Which marker characters of a text count as emphasis markers.
use vstd::prelude::*;
use vstd::string::*;
use vstd::utf8::*;
use crate::bytes::{
    BACKSLASH, DASH, DOLLAR, LPAREN, NEWLINE, PLUS, RBRACKET, RPAREN, SPACE, STAR, TAB,
    find_byte_from, first_byte_from, indent, leading_indent, run_len, run_length,
};
use crate::text::{boundary_before, boundary_from, char_from, str_suffix};
use crate::unicode::{
    alphanumeric, char_is_alphanumeric, char_is_whitespace, whitespace,
};
use crate::utf8::{ascii_cut, char_after, char_before};

verus! {

/// A space or a tab.
pub open spec fn space_or_tab(b: u8) -> bool {
    b == SPACE || b == TAB
}

/// Whether the byte is a space or a tab.
pub fn is_space_or_tab(b: u8) -> (r: bool)
    ensures
        r == space_or_tab(b),
{
    b == SPACE || b == TAB
}

/// A character of a word: an underscore, a letter or a number.
pub open spec fn word_char(c: char) -> bool {
    c == '_' || alphanumeric(c)
}

/// Whether the character is a character of a word.
pub fn is_word_char(c: char) -> (r: bool)
    ensures
        r == word_char(c),
{
    c == '_' || char_is_alphanumeric(c)
}

/// Whitespace, or one of the marker characters `_`, `~`, `*` and the backtick.
pub open spec fn blank_or_marker(c: char) -> bool {
    whitespace(c) || c == '_' || c == '~' || c == '*' || c == '`'
}

/// Every character is whitespace or a marker character.
pub open spec fn blank_or_markers(s: Seq<char>) -> bool {
    forall|i: int| 0 <= i < s.len() ==> blank_or_marker(#[trigger] s[i])
}

/// Nothing but whitespace and marker characters stands in the text from `k` on.
pub open spec fn no_content_from(s: Seq<u8>, k: int) -> bool {
    blank_or_markers(decode_utf8(s.subrange(k, s.len() as int)))
}

/// Whether the text holds nothing but whitespace and marker characters.
pub fn whitespace_or_markers_only(s: &str) -> (r: bool)
    ensures
        r == blank_or_markers(s@),
{
    broadcast use vstd::string::group_string_axioms;

    let mut ok = true;
    for c in it: s.chars()
        invariant
            it.seq() == s@,
            ok == (forall|i: int| 0 <= i < it.index() ==> blank_or_marker(#[trigger] s@[i])),
    {
        if !(char_is_whitespace(c) || c == '_' || c == '~' || c == '*' || c == '`') {
            ok = false;
        }
    }
    ok
}

/// Whether nothing but whitespace and marker characters follows position `k`.
pub fn no_content_after(text: &str, k: usize) -> (r: bool)
    requires
        ascii_cut(text.spec_bytes(), k as int),
    ensures
        r == no_content_from(text.spec_bytes(), k as int),
{
    let after = str_suffix(text, k);
    proof {
        encode_utf8_decode_utf8(after@);
    }
    whitespace_or_markers_only(after)
}

/// The byte before position `i`, or zero at the start of the text.
pub open spec fn byte_before(s: Seq<u8>, i: int) -> u8 {
    if 0 < i <= s.len() {
        s[i - 1]
    } else {
        0
    }
}

/// The byte after position `i`, or zero at the end of the text.
pub open spec fn byte_after(s: Seq<u8>, i: int) -> u8 {
    if 0 <= i + 1 < s.len() {
        s[i + 1]
    } else {
        0
    }
}

/// The marker at `i` stands inside a word: the character before it and the
/// character after it are both characters of a word.
pub open spec fn word_internal(s: Seq<u8>, i: int) -> bool {
    match (char_before(s, i), char_after(s, i)) {
        (Some(before), Some(after)) => word_char(before) && word_char(after),
        _ => false,
    }
}

/// Whether the marker at `index` stands inside a word.
pub fn is_word_internal(text: &str, index: usize) -> (r: bool)
    requires
        index < text.spec_bytes().len(),
    ensures
        r == word_internal(text.spec_bytes(), index as int),
{
    let n = text.as_bytes().len();
    if index == 0 {
        return false;
    }
    let after_at = boundary_from(text, index + 1);
    if after_at >= n {
        return false;
    }
    let before_at = boundary_before(text, index);
    is_word_char(char_from(text, before_at)) && is_word_char(char_from(text, after_at))
}

/// Whether a scan for math, which stands at `i` and is inside inline math
/// or block math as the flags say, is inside math when it reaches `pos`.
///
/// An escaped dollar sign is stepped over; `$$` opens or closes block math and
/// ends inline math; a single `$` outside block math opens or closes inline math.
pub open spec fn math_scan(s: Seq<u8>, i: int, pos: int, inline: bool, block: bool) -> bool
    decreases s.len() - i,
{
    if i < 0 || i >= pos || i >= s.len() {
        inline || block
    } else if s[i] == BACKSLASH && i + 1 < s.len() && s[i + 1] == DOLLAR {
        math_scan(s, i + 2, pos, inline, block)
    } else if s[i] == DOLLAR {
        if i + 1 < s.len() && s[i + 1] == DOLLAR {
            math_scan(s, i + 2, pos, false, !block)
        } else {
            math_scan(s, i + 1, pos, if block { inline } else { !inline }, block)
        }
    } else {
        math_scan(s, i + 1, pos, inline, block)
    }
}

/// The position is inside math.
pub open spec fn within_math(s: Seq<u8>, pos: int) -> bool {
    math_scan(s, 0, pos, false, false)
}

/// Whether the position is inside math.
pub fn is_within_math_block(text: &str, position: usize) -> (r: bool)
    ensures
        r == within_math(text.spec_bytes(), position as int),
{
    let bytes = text.as_bytes();
    let n = bytes.len();
    let mut in_inline = false;
    let mut in_block = false;
    let mut i: usize = 0;
    while i < position && i < n
        invariant
            bytes@ == text.spec_bytes(),
            n == bytes@.len(),
            within_math(bytes@, position as int) == math_scan(
                bytes@,
                i as int,
                position as int,
                in_inline,
                in_block,
            ),
        decreases n - i,
    {
        if bytes[i] == BACKSLASH && n - i > 1 && bytes[i + 1] == DOLLAR {
            i += 2;
        } else if bytes[i] == DOLLAR {
            if n - i > 1 && bytes[i + 1] == DOLLAR {
                in_block = !in_block;
                in_inline = false;
                i += 2;
            } else {
                if !in_block {
                    in_inline = !in_inline;
                }
                i += 1;
            }
        } else {
            i += 1;
        }
    }
    in_inline || in_block
}

/// A newline or a parenthesis: where the search for a link address stops.
pub open spec fn address_stop(b: u8) -> bool {
    b == NEWLINE || b == RPAREN || b == LPAREN
}

/// The last position below `k` that holds a newline or a parenthesis.
pub open spec fn address_stop_below(s: Seq<u8>, k: int) -> Option<int>
    decreases k,
{
    if k <= 0 || k > s.len() {
        None
    } else if address_stop(s[k - 1]) {
        Some(k - 1)
    } else {
        address_stop_below(s, k - 1)
    }
}

/// The first position at or after `j` that holds `)` or a newline, or the length.
pub open spec fn address_end_from(s: Seq<u8>, j: int) -> int
    decreases s.len() - j,
{
    if j < 0 || j >= s.len() {
        s.len() as int
    } else if s[j] == RPAREN || s[j] == NEWLINE {
        j
    } else {
        address_end_from(s, j + 1)
    }
}

/// The position is inside the address of a link or image on its line: to its
/// left the line first shows `(`, right after `]`, and to its right it
/// shows `)`.
pub open spec fn within_link_address(s: Seq<u8>, pos: int) -> bool {
    match address_stop_below(s, pos) {
        None => false,
        Some(i) => {
            let j = address_end_from(s, pos);
            s[i] == LPAREN && i > 0 && s[i - 1] == RBRACKET && j < s.len() && s[j] == RPAREN
        },
    }
}

/// Whether the line shows `)` at or after `position`.
fn address_closes(bytes: &[u8], position: usize) -> (r: bool)
    requires
        position <= bytes@.len(),
    ensures
        r == ({
            let j = address_end_from(bytes@, position as int);
            j < bytes@.len() && bytes@[j] == RPAREN
        }),
{
    let n = bytes.len();
    let mut j: usize = position;
    while j < n
        invariant
            n == bytes@.len(),
            position <= j <= n,
            address_end_from(bytes@, position as int) == address_end_from(bytes@, j as int),
        decreases n - j,
    {
        if bytes[j] == RPAREN {
            return true;
        }
        if bytes[j] == NEWLINE {
            return false;
        }
        j += 1;
    }
    false
}

/// Whether the position is inside the address of a link or image on its line.
pub fn is_within_link_or_image_url(text: &str, position: usize) -> (r: bool)
    requires
        position <= text.spec_bytes().len(),
    ensures
        r == within_link_address(text.spec_bytes(), position as int),
{
    let bytes = text.as_bytes();
    let n = bytes.len();
    let mut i: usize = position;
    while i > 0
        invariant
            bytes@ == text.spec_bytes(),
            n == bytes@.len(),
            i <= position <= n,
            address_stop_below(bytes@, position as int) == address_stop_below(bytes@, i as int),
        decreases i,
    {
        i -= 1;
        let b = bytes[i];
        if b == NEWLINE || b == RPAREN {
            return false;
        }
        if b == LPAREN {
            if i > 0 && bytes[i - 1] == RBRACKET {
                return address_closes(bytes, position);
            }
            return false;
        }
    }
    false
}

/// Where the line that holds position `i` starts.
pub open spec fn line_start(s: Seq<u8>, i: int) -> int
    decreases i,
{
    if i <= 0 || i > s.len() {
        0
    } else if s[i - 1] == NEWLINE {
        i
    } else {
        line_start(s, i - 1)
    }
}

/// A line starts at the start of the text or after a newline, and holds no
/// newline before the position.
pub proof fn lemma_line_start(s: Seq<u8>, i: int)
    requires
        0 <= i <= s.len(),
    ensures
        0 <= line_start(s, i) <= i,
        line_start(s, i) == 0 || s[line_start(s, i) - 1] == NEWLINE,
        forall|j: int| line_start(s, i) <= j < i ==> s[j] != NEWLINE,
    decreases i,
{
    if i > 0 && s[i - 1] != NEWLINE {
        lemma_line_start(s, i - 1);
    }
}

/// Where the line that holds position `i` starts.
pub fn start_of_line(b: &[u8], i: usize) -> (r: usize)
    requires
        i <= b@.len(),
    ensures
        r as int == line_start(b@, i as int),
        r <= i,
{
    let mut k: usize = i;
    while k > 0 && b[k - 1] != NEWLINE
        invariant
            k <= i <= b@.len(),
            line_start(b@, i as int) == line_start(b@, k as int),
        decreases k,
    {
        k -= 1;
    }
    k
}

/// The marker at `i` is a bullet: the first character of its line after at
/// most three spaces, one of `*`, `+` and `-`, with a space or tab after it.
pub open spec fn list_marker_at(s: Seq<u8>, i: int) -> bool {
    let start = line_start(s, i);
    let j = start + indent(s.subrange(start, s.len() as int));
    0 <= i < s.len() && j == i && (s[i] == STAR || s[i] == PLUS || s[i] == DASH) && i + 1
        < s.len() && space_or_tab(s[i + 1])
}

/// Whether the marker at `byte_index` is a bullet.
pub fn is_list_marker_at(text: &str, byte_index: usize) -> (r: bool)
    requires
        byte_index <= text.spec_bytes().len(),
    ensures
        r == list_marker_at(text.spec_bytes(), byte_index as int),
{
    let bytes = text.as_bytes();
    let n = bytes.len();
    let start = start_of_line(bytes, byte_index);
    let rest = vstd::slice::slice_subrange(bytes, start, n);
    let j = start + leading_indent(rest);
    if j >= n {
        return false;
    }
    if j == byte_index && (bytes[j] == STAR || bytes[j] == PLUS || bytes[j] == DASH) {
        return n - j > 1 && is_space_or_tab(bytes[j + 1]);
    }
    false
}

/// How many positions in `lo .. hi` hold `c`.
pub open spec fn count_byte(s: Seq<u8>, c: u8, lo: int, hi: int) -> nat
    decreases hi - lo,
{
    if lo >= hi || lo < 0 || hi > s.len() {
        0
    } else {
        (if s[lo] == c { 1nat } else { 0nat }) + count_byte(s, c, lo + 1, hi)
    }
}

/// The line that holds position `i` is a rule made of `marker`: it holds the
/// marker three times or more, and besides it only spaces and tabs.
pub open spec fn rule_line(s: Seq<u8>, i: int, marker: u8) -> bool {
    let lo = line_start(s, i);
    let hi = find_byte_from(s, NEWLINE, i);
    (forall|j: int| lo <= j < hi ==> #[trigger] s[j] == marker || space_or_tab(s[j]))
        && count_byte(s, marker, lo, hi) >= 3
}

/// Whether the line that holds `marker_index` is a rule made of `marker`.
pub fn is_horizontal_rule_line(text: &str, marker_index: usize, marker: u8) -> (r: bool)
    requires
        marker_index <= text.spec_bytes().len(),
    ensures
        r == rule_line(text.spec_bytes(), marker_index as int, marker),
{
    let bytes = text.as_bytes();
    let n = bytes.len();
    let lo = start_of_line(bytes, marker_index);
    let hi = first_byte_from(bytes, NEWLINE, marker_index);
    let mut count: usize = 0;
    let mut k: usize = lo;
    while k < hi
        invariant
            bytes@ == text.spec_bytes(),
            n == bytes@.len(),
            lo == line_start(bytes@, marker_index as int),
            hi == find_byte_from(bytes@, NEWLINE, marker_index as int),
            lo <= k <= hi <= n,
            count <= k - lo,
            forall|j: int|
                lo <= j < k ==> #[trigger] bytes@[j] == marker || space_or_tab(bytes@[j]),
            count + count_byte(bytes@, marker, k as int, hi as int) == count_byte(
                bytes@,
                marker,
                lo as int,
                hi as int,
            ),
        decreases hi - k,
    {
        let b = bytes[k];
        if b == marker {
            count += 1;
        } else if b != SPACE && b != TAB {
            assert(!(bytes@[k as int] == marker || space_or_tab(bytes@[k as int])));
            return false;
        }
        k += 1;
    }
    count >= 3
}

/// How many groups of three the runs of asterisks from `i` on hold: a run of
/// `n` asterisks holds `n / 3` of them.
pub open spec fn triples_from(s: Seq<u8>, i: int) -> nat
    decreases s.len() - i,
{
    if i < 0 || i >= s.len() {
        0
    } else if s[i] == STAR {
        let n = run_len(s, i, STAR);
        if n >= 1 && i + n <= s.len() {
            n / 3 + triples_from(s, i + n)
        } else {
            0
        }
    } else {
        triples_from(s, i + 1)
    }
}

/// How many groups of three asterisks the text holds.
pub open spec fn triple_asterisks(s: Seq<u8>) -> nat {
    triples_from(s, 0)
}

/// How many groups of three asterisks the text holds.
pub fn count_triple_asterisks(text: &str) -> (r: usize)
    ensures
        r as nat == triple_asterisks(text.spec_bytes()),
{
    let bytes = text.as_bytes();
    let n = bytes.len();
    let mut count: usize = 0;
    let mut i: usize = 0;
    while i < n
        invariant
            bytes@ == text.spec_bytes(),
            n == bytes@.len(),
            i <= n,
            count <= i,
            count + triples_from(bytes@, i as int) == triple_asterisks(bytes@),
        decreases n - i,
    {
        if bytes[i] == STAR {
            let run = run_length(bytes, i, STAR);
            count += run / 3;
            i += run;
        } else {
            i += 1;
        }
    }
    count
}

} // verus!
