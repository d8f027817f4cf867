//! The block splitter as a function of its input.
use vstd::prelude::*;
use crate::boundary::BoundaryRule;
use crate::pending::fences::{FenceChar, fence_line};
use crate::pending::marks::line_start;
use crate::syntax::{
    atx_heading, blank, closes_fence, delimiter_row, footnote_definition, html_opener,
    line_content, list_marker, math_delimiter, quote_marker, table_row, thematic_break,
};
use crate::types::BlockKind;

verus! {

/// What the classifier holds open.
pub enum ModeModel {
    /// No block is open.
    Idle,
    /// A block of the plugin with this index.
    Custom { plugin: int },
    /// A code fence of this character, opened with a run of this length.
    Fence { ch: FenceChar, len: int },
    Math,
    Html,
    /// One line that may be the header of a table.
    TableHead,
    Table,
    /// A list, with this many bytes of blank lines at its end that may yet
    /// turn out to lie between two of its items.
    List { blanks: int },
    /// A block quote, with blank lines at its end as for a list.
    Quote { blanks: int },
    Paragraph,
    Footnote,
}

/// A block as the splitter cuts it: its kind and its bytes.
pub struct BlockText {
    pub kind: BlockKind,
    pub raw: Seq<u8>,
}

/// The state of the splitter after some complete lines.
pub struct Scan {
    pub mode: ModeModel,
    /// The lines of the open block.
    pub open: Seq<u8>,
    /// The state of each plugin.
    pub states: Seq<Seq<int>>,
    /// The blocks committed so far.
    pub blocks: Seq<BlockText>,
    /// How many bytes of blank lines between blocks have been left out.
    pub dropped: nat,
}

/// The state before any input: nothing open, every plugin idle.
pub open spec fn start_scan(rules: Seq<BoundaryRule>) -> Scan {
    Scan {
        mode: ModeModel::Idle,
        open: Seq::empty(),
        states: Seq::new(rules.len(), |i: int| rules[i].idle),
        blocks: Seq::empty(),
        dropped: 0,
    }
}

/// The line joins the open block.
pub open spec fn extended(sc: Scan, line: Seq<u8>) -> Scan {
    Scan { open: sc.open + line, ..sc }
}

/// The open block is committed as it stands.
pub open spec fn committed(sc: Scan, kind: BlockKind) -> Scan {
    Scan {
        mode: ModeModel::Idle,
        open: Seq::empty(),
        blocks: sc.blocks.push(BlockText { kind, raw: sc.open }),
        ..sc
    }
}

/// The open block is committed without the blank lines at its end, which are left out.
pub open spec fn committed_without(sc: Scan, kind: BlockKind, blanks: int) -> Scan {
    Scan {
        mode: ModeModel::Idle,
        open: Seq::empty(),
        blocks: sc.blocks.push(
            BlockText { kind, raw: sc.open.subrange(0, sc.open.len() - blanks) },
        ),
        dropped: (sc.dropped + blanks) as nat,
        ..sc
    }
}

/// The first plugin from `from` on whose rule says that the line can start a block.
pub open spec fn first_opening(rules: Seq<BoundaryRule>, c: Seq<u8>, from: int) -> Option<int>
    decreases rules.len() - from,
{
    if from < 0 || from >= rules.len() {
        None
    } else if (rules[from].opens)(c) {
        Some(from)
    } else {
        first_opening(rules, c, from + 1)
    }
}

/// What a line opens by the rules of Markdown: the mode that the block is
/// held open in, or `Idle` for a block of a single line.
pub open spec fn opening(c: Seq<u8>) -> ModeModel {
    match fence_line(c) {
        Some((ch, n)) => ModeModel::Fence { ch, len: n as int },
        None => if math_delimiter(c) {
            ModeModel::Math
        } else if atx_heading(c) || thematic_break(c) {
            ModeModel::Idle
        } else if html_opener(c) {
            ModeModel::Html
        } else if list_marker(c) {
            ModeModel::List { blanks: 0 }
        } else if quote_marker(c) {
            ModeModel::Quote { blanks: 0 }
        } else if table_row(c) {
            ModeModel::TableHead
        } else if footnote_definition(c) {
            ModeModel::Footnote
        } else {
            ModeModel::Paragraph
        },
    }
}

/// The kind of the block that a line opens by the rules of Markdown. The
/// first rule that applies decides: code fence, math block, heading, thematic
/// break, HTML block, list, block quote, table, footnote definition, and
/// paragraph for every other line.
pub open spec fn markdown_kind(c: Seq<u8>) -> BlockKind {
    if fence_line(c) is Some {
        BlockKind::CodeFence
    } else if math_delimiter(c) {
        BlockKind::MathBlock
    } else if atx_heading(c) {
        BlockKind::Heading
    } else if thematic_break(c) {
        BlockKind::ThematicBreak
    } else if html_opener(c) {
        BlockKind::HtmlBlock
    } else if list_marker(c) {
        BlockKind::List
    } else if quote_marker(c) {
        BlockKind::BlockQuote
    } else if table_row(c) {
        BlockKind::Table
    } else if footnote_definition(c) {
        BlockKind::FootnoteDefinition
    } else {
        BlockKind::Paragraph
    }
}

/// The state after a line that arrives while no block is open.
///
/// A blank line is left out. Else the plugins are asked in their order, and
/// the first whose rule accepts the line starts a block of its own with it;
/// where none does, the rules of Markdown decide.
pub open spec fn opened(rules: Seq<BoundaryRule>, sc: Scan, line: Seq<u8>) -> Scan {
    let c = line_content(line);
    if blank(c) {
        Scan { dropped: sc.dropped + line.len(), ..sc }
    } else {
        match first_opening(rules, c, 0) {
            Some(p) => {
                let entered = (rules[p].enter)(c);
                let r = (rules[p].step)(entered, c);
                let sc1 = Scan {
                    mode: ModeModel::Custom { plugin: p },
                    open: sc.open + line,
                    states: sc.states.update(p, r.0),
                    ..sc
                };
                if r.1 {
                    committed(sc1, BlockKind::CustomBoundary)
                } else {
                    sc1
                }
            },
            None => match opening(c) {
                ModeModel::Idle => committed(extended(sc, line), markdown_kind(c)),
                m => Scan { mode: m, open: sc.open + line, ..sc },
            },
        }
    }
}

/// The line joins the open block, and closes it where `closes` holds.
pub open spec fn continued(sc: Scan, line: Seq<u8>, closes: bool, kind: BlockKind) -> Scan {
    if closes {
        committed(extended(sc, line), kind)
    } else {
        extended(sc, line)
    }
}

/// The state after one more line.
///
/// What is open decides first: a plugin's block closes when the plugin says
/// so; a code fence at its closing fence line; a math block at `$$`; an HTML
/// block, a paragraph and a footnote definition at a blank line. A table waits
/// for its delimiter row, without which its first line was the start of a
/// paragraph; it goes on with every row, ends with a blank line, and ends
/// before any other line. A list or block quote goes on with each line that
/// starts with its marker; blank lines are held back, and belong to it only if
/// such a line follows them; any other line ends it. With nothing open, the
/// line opens a block.
#[verifier::opaque]
pub open spec fn step_line(rules: Seq<BoundaryRule>, sc: Scan, line: Seq<u8>) -> Scan {
    let c = line_content(line);
    match sc.mode {
        ModeModel::Idle => opened(rules, sc, line),
        ModeModel::Custom { plugin } => if 0 <= plugin < rules.len() && plugin
            < sc.states.len() {
            let r = (rules[plugin].step)(sc.states[plugin], c);
            let sc1 = Scan { open: sc.open + line, states: sc.states.update(plugin, r.0), ..sc };
            if r.1 {
                committed(sc1, BlockKind::CustomBoundary)
            } else {
                sc1
            }
        } else {
            extended(sc, line)
        },
        ModeModel::Fence { ch, len } => continued(
            sc,
            line,
            closes_fence(c, ch, len),
            BlockKind::CodeFence,
        ),
        ModeModel::Math => continued(sc, line, math_delimiter(c), BlockKind::MathBlock),
        ModeModel::Html => continued(sc, line, blank(c), BlockKind::HtmlBlock),
        ModeModel::Paragraph => continued(sc, line, blank(c), BlockKind::Paragraph),
        ModeModel::Footnote => continued(sc, line, blank(c), BlockKind::FootnoteDefinition),
        ModeModel::TableHead => if delimiter_row(c) {
            Scan { mode: ModeModel::Table, open: sc.open + line, ..sc }
        } else {
            continued(
                Scan { mode: ModeModel::Paragraph, ..sc },
                line,
                blank(c),
                BlockKind::Paragraph,
            )
        },
        ModeModel::Table => if blank(c) {
            committed(extended(sc, line), BlockKind::Table)
        } else if table_row(c) {
            extended(sc, line)
        } else {
            opened(rules, committed(sc, BlockKind::Table), line)
        },
        ModeModel::List { blanks } => if blank(c) {
            Scan {
                mode: ModeModel::List { blanks: blanks + line.len() },
                open: sc.open + line,
                ..sc
            }
        } else if list_marker(c) {
            Scan { mode: ModeModel::List { blanks: 0 }, open: sc.open + line, ..sc }
        } else {
            opened(rules, committed_without(sc, BlockKind::List, blanks), line)
        },
        ModeModel::Quote { blanks } => if blank(c) {
            Scan {
                mode: ModeModel::Quote { blanks: blanks + line.len() },
                open: sc.open + line,
                ..sc
            }
        } else if quote_marker(c) {
            Scan { mode: ModeModel::Quote { blanks: 0 }, open: sc.open + line, ..sc }
        } else {
            opened(rules, committed_without(sc, BlockKind::BlockQuote, blanks), line)
        },
    }
}

/// The state after the complete lines of `input` that end at or before `k`,
/// where `k` is 0 or the position after a newline.
pub open spec fn scan_at(rules: Seq<BoundaryRule>, input: Seq<u8>, k: int) -> Scan
    decreases k,
{
    if k <= 0 || k > input.len() {
        start_scan(rules)
    } else {
        let p = line_start(input, k - 1);
        if 0 <= p < k {
            step_line(rules, scan_at(rules, input, p), input.subrange(p, k))
        } else {
            start_scan(rules)
        }
    }
}

/// Where the unfinished last line of the input starts.
pub open spec fn lines_end(input: Seq<u8>) -> int {
    line_start(input, input.len() as int)
}

/// The state after all complete lines of the input.
pub open spec fn run(rules: Seq<BoundaryRule>, input: Seq<u8>) -> Scan {
    scan_at(rules, input, lines_end(input))
}

/// The unfinished last line of the input.
pub open spec fn rest(input: Seq<u8>) -> Seq<u8> {
    input.subrange(lines_end(input), input.len() as int)
}

/// The kind that an open block is committed with when the input ends.
pub open spec fn closing_kind(mode: ModeModel) -> BlockKind {
    match mode {
        ModeModel::Idle => BlockKind::Unknown,
        ModeModel::Custom { .. } => BlockKind::CustomBoundary,
        ModeModel::Fence { .. } => BlockKind::CodeFence,
        ModeModel::Math => BlockKind::MathBlock,
        ModeModel::Html => BlockKind::HtmlBlock,
        ModeModel::TableHead => BlockKind::Paragraph,
        ModeModel::Table => BlockKind::Table,
        ModeModel::List { .. } => BlockKind::List,
        ModeModel::Quote { .. } => BlockKind::BlockQuote,
        ModeModel::Paragraph => BlockKind::Paragraph,
        ModeModel::Footnote => BlockKind::FootnoteDefinition,
    }
}

/// The kind that an open block is shown with while it is pending.
pub open spec fn pending_kind(mode: ModeModel) -> BlockKind {
    match mode {
        ModeModel::TableHead => BlockKind::Table,
        m => closing_kind(m),
    }
}

/// The open block is committed because the input has ended.
pub open spec fn closed(sc: Scan) -> Scan {
    match sc.mode {
        ModeModel::Idle => sc,
        ModeModel::List { blanks } => committed_without(sc, BlockKind::List, blanks),
        ModeModel::Quote { blanks } => committed_without(sc, BlockKind::BlockQuote, blanks),
        m => committed(sc, closing_kind(m)),
    }
}

/// The state once the input has ended: the unfinished last line counts as a
/// line, and what is open then is committed.
pub open spec fn finished(rules: Seq<BoundaryRule>, input: Seq<u8>) -> Scan {
    let sc = run(rules, input);
    if rest(input).len() > 0 {
        closed(step_line(rules, sc, rest(input)))
    } else {
        closed(sc)
    }
}

/// The kind that a line is shown with which has not opened a block yet.
pub open spec fn provisional_kind(rules: Seq<BoundaryRule>, c: Seq<u8>) -> BlockKind {
    if blank(c) {
        BlockKind::Unknown
    } else if first_opening(rules, c, 0) is Some {
        BlockKind::CustomBoundary
    } else {
        markdown_kind(c)
    }
}

/// The pending block: what the input holds after its last committed block.
pub open spec fn pending_of(rules: Seq<BoundaryRule>, sc: Scan, tail: Seq<u8>) -> Option<
    BlockText,
> {
    if sc.open.len() + tail.len() == 0 {
        None
    } else {
        Some(
            BlockText {
                kind: match sc.mode {
                    ModeModel::Idle => provisional_kind(rules, line_content(tail)),
                    m => pending_kind(m),
                },
                raw: sc.open + tail,
            },
        )
    }
}

/// The blocks that the splitter has committed once it has consumed `input`.
pub open spec fn committed_blocks(rules: Seq<BoundaryRule>, input: Seq<u8>) -> Seq<BlockText> {
    run(rules, input).blocks
}

/// The pending block once the splitter has consumed `input`.
pub open spec fn pending_block(rules: Seq<BoundaryRule>, input: Seq<u8>) -> Option<BlockText> {
    pending_of(rules, run(rules, input), rest(input))
}

/// All blocks of `input`, once it has ended.
pub open spec fn all_blocks(rules: Seq<BoundaryRule>, input: Seq<u8>) -> Seq<BlockText> {
    finished(rules, input).blocks
}

} // verus!
