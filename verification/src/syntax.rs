//! What a line says about the blocks of a Markdown text.
use vstd::prelude::*;
use vstd::string::*;
use vstd::utf8::*;
use crate::bytes::{
    BACKSLASH, CARET, CARRIAGE_RETURN, COLON, DASH, DOLLAR, DOT, GREATER, HASH, LBRACKET, LESS,
    NEWLINE, PIPE, PLUS, RBRACKET, RPAREN, SLASH, SPACE, STAR, TAB, UNDERSCORE, find_byte_from,
    first_byte_from, indent, leading_indent, run_len, run_length,
};
use crate::boundary::{name_run, TagBoundaryPlugin};
use crate::pending::fences::FenceChar;
use crate::pending::marks::{count_byte, space_or_tab};
use crate::pending::window::blank_trimmed_end;
use crate::unicode::{
    ascii_alphabetic, ascii_digit, ascii_lower, is_ascii_alphabetic, is_ascii_digit,
    to_ascii_lower,
};

verus! {

/// The line without the newline at its end and without a carriage return
/// right before that.
pub open spec fn line_content(line: Seq<u8>) -> Seq<u8> {
    let a = if line.len() > 0 && line.last() == NEWLINE {
        line.drop_last()
    } else {
        line
    };
    if a.len() > 0 && a.last() == CARRIAGE_RETURN {
        a.drop_last()
    } else {
        a
    }
}

/// The length of the content of the line.
pub fn content_len(line: &[u8]) -> (r: usize)
    ensures
        r <= line@.len(),
        line@.subrange(0, r as int) == line_content(line@),
{
    let mut n = line.len();
    if n > 0 && line[n - 1] == NEWLINE {
        n -= 1;
    }
    if n > 0 && line[n - 1] == CARRIAGE_RETURN {
        n -= 1;
    }
    assert(line@.subrange(0, n as int) =~= line_content(line@));
    n
}

/// Nothing but spaces and tabs.
pub open spec fn blank(c: Seq<u8>) -> bool {
    forall|i: int| 0 <= i < c.len() ==> space_or_tab(#[trigger] c[i])
}

/// Whether the line holds nothing but spaces and tabs.
pub fn is_blank(c: &[u8]) -> (r: bool)
    ensures
        r == blank(c@),
{
    let mut i: usize = 0;
    while i < c.len()
        invariant
            i <= c@.len(),
            forall|j: int| 0 <= j < i ==> space_or_tab(#[trigger] c@[j]),
        decreases c@.len() - i,
    {
        if !(c[i] == SPACE || c[i] == TAB) {
            return false;
        }
        i += 1;
    }
    true
}

/// The byte a fence is made of.
pub open spec fn fence_byte(ch: FenceChar) -> u8 {
    match ch {
        FenceChar::Backtick => crate::bytes::BACKTICK,
        FenceChar::Tilde => crate::bytes::TILDE,
    }
}

/// The line closes a fence of `ch` that was opened with a run of `len`:
/// after at most three spaces it holds `len` or more of `ch`, and after them
/// only spaces and tabs.
pub open spec fn closes_fence(c: Seq<u8>, ch: FenceChar, len: int) -> bool {
    let i = indent(c);
    let n = run_len(c, i, fence_byte(ch));
    n >= 1 && n >= len && blank(c.subrange(i + n, c.len() as int))
}

/// Whether the line closes a fence of `ch` that was opened with a run of `len`.
pub fn is_fence_close(c: &[u8], ch: FenceChar, len: usize) -> (r: bool)
    ensures
        r == closes_fence(c@, ch, len as int),
{
    let i = leading_indent(c);
    let b = match ch {
        FenceChar::Backtick => crate::bytes::BACKTICK,
        FenceChar::Tilde => crate::bytes::TILDE,
    };
    let n = run_length(c, i, b);
    if n < 1 || n < len {
        return false;
    }
    is_blank(vstd::slice::slice_subrange(c, i + n, c.len()))
}

/// The line is `$$` and nothing else, spaces and tabs at its end aside.
pub open spec fn math_delimiter(c: Seq<u8>) -> bool {
    blank_trimmed_end(c, 0, c.len() as int) == 2 && c[0] == DOLLAR && c[1] == DOLLAR
}

/// Whether the line is `$$` and nothing else.
pub fn is_math_delimiter(c: &[u8]) -> (r: bool)
    ensures
        r == math_delimiter(c@),
{
    let n = c.len();
    let mut end: usize = n;
    while end > 0 && (c[end - 1] == SPACE || c[end - 1] == TAB)
        invariant
            n == c@.len(),
            end <= n,
            blank_trimmed_end(c@, 0, n as int) == blank_trimmed_end(c@, 0, end as int),
        decreases end,
    {
        end -= 1;
    }
    end == 2 && c[0] == DOLLAR && c[1] == DOLLAR
}

/// An ATX heading: one to six `#`, and then a space or the end of the line.
pub open spec fn atx_heading(c: Seq<u8>) -> bool {
    let n = run_len(c, 0, HASH);
    1 <= n <= 6 && (n == c.len() || c[n as int] == SPACE)
}

/// Whether the line is an ATX heading.
pub fn is_atx_heading(c: &[u8]) -> (r: bool)
    ensures
        r == atx_heading(c@),
{
    let n = run_length(c, 0, HASH);
    1 <= n && n <= 6 && (n == c.len() || c[n] == SPACE)
}

/// A rule made of `m`: the line holds `m` three times or more, and besides
/// it only spaces and tabs.
pub open spec fn rule_of(c: Seq<u8>, m: u8) -> bool {
    (forall|j: int| 0 <= j < c.len() ==> #[trigger] c[j] == m || space_or_tab(c[j]))
        && count_byte(c, m, 0, c.len() as int) >= 3
}

/// A thematic break: a rule made of `-`, of `*` or of `_`.
pub open spec fn thematic_break(c: Seq<u8>) -> bool {
    rule_of(c, DASH) || rule_of(c, STAR) || rule_of(c, UNDERSCORE)
}

/// Whether the line is a rule made of `m`.
fn is_rule_of(c: &[u8], m: u8) -> (r: bool)
    ensures
        r == rule_of(c@, m),
{
    let n = c.len();
    let mut count: usize = 0;
    let mut k: usize = 0;
    while k < n
        invariant
            n == c@.len(),
            k <= n,
            count <= k,
            forall|j: int| 0 <= j < k ==> #[trigger] c@[j] == m || space_or_tab(c@[j]),
            count + count_byte(c@, m, k as int, n as int) == count_byte(c@, m, 0, n as int),
        decreases n - k,
    {
        let b = c[k];
        if b == m {
            count += 1;
        } else if b != SPACE && b != TAB {
            assert(!(c@[k as int] == m || space_or_tab(c@[k as int])));
            return false;
        }
        k += 1;
    }
    count >= 3
}

/// Whether the line is a thematic break.
pub fn is_thematic_break(c: &[u8]) -> (r: bool)
    ensures
        r == thematic_break(c@),
{
    is_rule_of(c, DASH) || is_rule_of(c, STAR) || is_rule_of(c, UNDERSCORE)
}

/// The names of the tags that open an HTML block.
pub open spec fn html_block_tags() -> Seq<&'static str> {
    seq![
        "address", "article", "aside", "base", "basefont", "blockquote", "body", "caption",
        "center", "col", "colgroup", "dd", "details", "dialog", "dir", "div", "dl", "dt",
        "fieldset", "figcaption", "figure", "footer", "form", "frame", "frameset", "h1", "h2",
        "h3", "h4", "h5", "h6", "head", "header", "hr", "html", "iframe", "legend", "li", "link",
        "main", "menu", "menuitem", "nav", "noframes", "ol", "optgroup", "option", "p", "param",
        "pre", "script", "search", "section", "style", "summary", "table", "tbody", "td",
        "textarea", "tfoot", "th", "thead", "title", "tr", "track", "ul",
    ]
}

/// The name, in lower case, is the name of a tag that opens an HTML block.
pub open spec fn html_block_tag(name: Seq<u8>) -> bool {
    exists|i: int|
        0 <= i < html_block_tags().len() && (#[trigger] html_block_tags()[i]).spec_bytes()
            == Seq::new(name.len(), |j: int| ascii_lower(name[j]))
}

/// The opener of an HTML block: `<` or `</`, and then the name of a
/// block-level tag, in either case of letters.
pub open spec fn html_opener(c: Seq<u8>) -> bool {
    let from = if c.len() > 1 && c[1] == SLASH {
        2int
    } else {
        1int
    };
    c.len() > from && c[0] == LESS && ascii_alphabetic(c[from]) && html_block_tag(
        c.subrange(from, from + 1 + name_run(c, from + 1)),
    )
}

/// The names of the tags that open an HTML block.
fn html_block_tag_list() -> (r: Vec<&'static str>)
    ensures
        r@ == html_block_tags(),
{
    let r = vec![
        "address", "article", "aside", "base", "basefont", "blockquote", "body", "caption",
        "center", "col", "colgroup", "dd", "details", "dialog", "dir", "div", "dl", "dt",
        "fieldset", "figcaption", "figure", "footer", "form", "frame", "frameset", "h1", "h2",
        "h3", "h4", "h5", "h6", "head", "header", "hr", "html", "iframe", "legend", "li", "link",
        "main", "menu", "menuitem", "nav", "noframes", "ol", "optgroup", "option", "p", "param",
        "pre", "script", "search", "section", "style", "summary", "table", "tbody", "td",
        "textarea", "tfoot", "th", "thead", "title", "tr", "track", "ul",
    ];
    assert(r@ =~= html_block_tags());
    r
}

/// Whether the bytes of `tag` are the lower-case form of `name`.
fn is_lower_of(tag: &[u8], name: &[u8]) -> (r: bool)
    ensures
        r == (tag@ == Seq::new(name@.len(), |j: int| ascii_lower(name@[j]))),
{
    if tag.len() != name.len() {
        return false;
    }
    let mut i: usize = 0;
    while i < tag.len()
        invariant
            tag@.len() == name@.len(),
            i <= tag@.len(),
            forall|j: int| 0 <= j < i ==> tag@[j] == ascii_lower(name@[j]),
        decreases tag@.len() - i,
    {
        if tag[i] != to_ascii_lower(name[i]) {
            assert(Seq::new(name@.len(), |j: int| ascii_lower(name@[j]))[i as int]
                != tag@[i as int]);
            return false;
        }
        i += 1;
    }
    assert(tag@ =~= Seq::new(name@.len(), |j: int| ascii_lower(name@[j])));
    true
}

/// Whether the name is the name of a tag that opens an HTML block.
fn is_html_block_tag(name: &[u8]) -> (r: bool)
    ensures
        r == html_block_tag(name@),
{
    let tags = html_block_tag_list();
    let mut i: usize = 0;
    while i < tags.len()
        invariant
            tags@ == html_block_tags(),
            i <= tags@.len(),
            forall|k: int|
                0 <= k < i ==> (#[trigger] html_block_tags()[k]).spec_bytes() != Seq::new(
                    name@.len(),
                    |j: int| ascii_lower(name@[j]),
                ),
        decreases tags@.len() - i,
    {
        if is_lower_of(tags[i].as_bytes(), name) {
            return true;
        }
        i += 1;
    }
    false
}

/// Whether the line opens an HTML block.
pub fn is_html_opener(c: &[u8]) -> (r: bool)
    ensures
        r == html_opener(c@),
{
    let n = c.len();
    let from: usize = if n > 1 && c[1] == SLASH {
        2
    } else {
        1
    };
    if !(n > from && c[0] == LESS && is_ascii_alphabetic(c[from])) {
        return false;
    }
    let mut end: usize = from + 1;
    while end < n && TagBoundaryPlugin::is_tag_name_char(c[end])
        invariant
            n == c@.len(),
            from < end <= n,
            name_run(c@, from + 1) == (end - from - 1) + name_run(c@, end as int),
        decreases n - end,
    {
        end += 1;
    }
    is_html_block_tag(vstd::slice::slice_subrange(c, from, end))
}

/// How many decimal digits stand in a row from position `i`.
pub open spec fn digit_run(s: Seq<u8>, i: int) -> nat
    decreases s.len() - i,
{
    if i < 0 || i >= s.len() || !ascii_digit(s[i]) {
        0
    } else {
        1 + digit_run(s, i + 1)
    }
}

/// The end of the line, or a space or tab, stands at position `i`.
pub open spec fn gap_at(c: Seq<u8>, i: int) -> bool {
    i >= c.len() || (0 <= i && space_or_tab(c[i]))
}

/// The line starts a list item: after at most three spaces it holds a
/// bullet, one of `-`, `+` and `*`, or one to nine digits and then `.` or `)`;
/// a space, a tab or the end of the line follows.
pub open spec fn list_marker(c: Seq<u8>) -> bool {
    let i = indent(c);
    let d = digit_run(c, i);
    i < c.len() && (((c[i] == DASH || c[i] == PLUS || c[i] == STAR) && gap_at(c, i + 1)) || (1
        <= d <= 9 && i + d < c.len() && (c[i + d] == DOT || c[i + d] == RPAREN) && gap_at(
        c,
        i + d + 1,
    )))
}

/// Whether the line starts a list item.
pub fn is_list_marker(c: &[u8]) -> (r: bool)
    ensures
        r == list_marker(c@),
{
    let n = c.len();
    let i = leading_indent(c);
    if i >= n {
        return false;
    }
    if (c[i] == DASH || c[i] == PLUS || c[i] == STAR) && (i + 1 >= n || c[i + 1] == SPACE || c[i
        + 1] == TAB) {
        return true;
    }
    let mut k: usize = i;
    while k < n && is_ascii_digit(c[k])
        invariant
            n == c@.len(),
            i <= k <= n,
            digit_run(c@, i as int) == (k - i) + digit_run(c@, k as int),
        decreases n - k,
    {
        k += 1;
    }
    let d = k - i;
    1 <= d && d <= 9 && k < n && (c[k] == DOT || c[k] == RPAREN) && (k + 1 >= n || c[k + 1]
        == SPACE || c[k + 1] == TAB)
}

/// The line starts a block quote: after at most three spaces it holds `>`.
pub open spec fn quote_marker(c: Seq<u8>) -> bool {
    indent(c) < c.len() && c[indent(c)] == GREATER
}

/// Whether the line starts a block quote.
pub fn is_quote_marker(c: &[u8]) -> (r: bool)
    ensures
        r == quote_marker(c@),
{
    let i = leading_indent(c);
    i < c.len() && c[i] == GREATER
}

/// The line holds a `|` that no backslash escapes.
pub open spec fn table_row(c: Seq<u8>) -> bool {
    exists|j: int| 0 <= j < c.len() && #[trigger] c[j] == PIPE && (j == 0 || c[j - 1] != BACKSLASH)
}

/// Whether the line holds a `|` that no backslash escapes.
pub fn is_table_row(c: &[u8]) -> (r: bool)
    ensures
        r == table_row(c@),
{
    let mut i: usize = 0;
    while i < c.len()
        invariant
            i <= c@.len(),
            forall|j: int|
                0 <= j < i ==> !(#[trigger] c@[j] == PIPE && (j == 0 || c@[j - 1] != BACKSLASH)),
        decreases c@.len() - i,
    {
        if c[i] == PIPE && (i == 0 || c[i - 1] != BACKSLASH) {
            return true;
        }
        i += 1;
    }
    false
}

/// A byte of the delimiter row of a table.
pub open spec fn delimiter_byte(b: u8) -> bool {
    b == PIPE || b == DASH || b == COLON || space_or_tab(b)
}

/// The delimiter row of a table: `|`, `-`, `:`, spaces and tabs, with at
/// least one `|` and one `-` among them.
pub open spec fn delimiter_row(c: Seq<u8>) -> bool {
    (forall|j: int| 0 <= j < c.len() ==> delimiter_byte(#[trigger] c[j])) && count_byte(
        c,
        PIPE,
        0,
        c.len() as int,
    ) >= 1 && count_byte(c, DASH, 0, c.len() as int) >= 1
}

/// Whether the line is the delimiter row of a table.
pub fn is_delimiter_row(c: &[u8]) -> (r: bool)
    ensures
        r == delimiter_row(c@),
{
    let n = c.len();
    let mut pipes: usize = 0;
    let mut dashes: usize = 0;
    let mut k: usize = 0;
    while k < n
        invariant
            n == c@.len(),
            k <= n,
            pipes <= k,
            dashes <= k,
            forall|j: int| 0 <= j < k ==> delimiter_byte(#[trigger] c@[j]),
            pipes + count_byte(c@, PIPE, k as int, n as int) == count_byte(c@, PIPE, 0, n as int),
            dashes + count_byte(c@, DASH, k as int, n as int) == count_byte(c@, DASH, 0, n as int),
        decreases n - k,
    {
        let b = c[k];
        if b == PIPE {
            pipes += 1;
        } else if b == DASH {
            dashes += 1;
        } else if !(b == COLON || b == SPACE || b == TAB) {
            assert(!delimiter_byte(c@[k as int]));
            return false;
        }
        k += 1;
    }
    pipes >= 1 && dashes >= 1
}

/// A footnote definition: `[^`, a label, and `]:`.
pub open spec fn footnote_definition(c: Seq<u8>) -> bool {
    let close = find_byte_from(c, RBRACKET, 2);
    c.len() > 2 && c[0] == LBRACKET && c[1] == CARET && 2 < close && close + 1 < c.len() && c[close
        + 1] == COLON
}

/// Whether the line is a footnote definition.
pub fn is_footnote_definition(c: &[u8]) -> (r: bool)
    ensures
        r == footnote_definition(c@),
{
    let n = c.len();
    if !(n > 2 && c[0] == LBRACKET && c[1] == CARET) {
        return false;
    }
    let close = first_byte_from(c, RBRACKET, 2);
    2 < close && n - close > 1 && c[close + 1] == COLON
}

} // verus!
