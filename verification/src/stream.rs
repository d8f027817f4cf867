//! The block stream: chunks in, committed blocks and one pending block out.
pub mod laws;
pub mod model;

use vstd::prelude::*;
use vstd::string::*;
use vstd::utf8::*;
use crate::boundary::{BoundaryPlugin, BoundaryRule, BoundaryUpdate};
use crate::bytes::{NEWLINE, first_byte_from, lemma_find_byte_from};
use crate::options::Options;
use crate::pending::fences::{FenceChar, parse_fence_line};
use crate::pending::marks::{line_start, lemma_line_start};
use crate::pending::terminator::{TerminatorRules, terminate_markdown, terminated};
use crate::stream::model::{
    BlockText, ModeModel, Scan, closed, committed, committed_blocks, committed_without, extended,
    finished, first_opening, lines_end, markdown_kind, opened, opening, pending_block, pending_of,
    rest, run, scan_at, start_scan, step_line, all_blocks,
};
use crate::syntax::{
    content_len, is_atx_heading, is_blank, is_delimiter_row, is_fence_close,
    is_footnote_definition, is_html_opener, is_list_marker, is_math_delimiter, is_quote_marker,
    is_table_row, is_thematic_break, line_content,
};
use crate::text::{owned, push_str, str_prefix, str_range, str_suffix};
use crate::transform::{PendingTransformInput, PendingTransformer, apply_answer};
use crate::types::{Block, BlockId, BlockKind, BlockModel, BlockStatus, Update};

verus! {

/// What the classifier of a stream holds open.
#[derive(Debug, Clone, Copy, PartialEq, Eq, Structural)]
pub enum Mode {
    Idle,
    Custom { plugin: usize },
    Fence { ch: FenceChar, len: usize },
    Math,
    Html,
    TableHead,
    Table,
    List { blanks: usize },
    Quote { blanks: usize },
    Paragraph,
    Footnote,
}

impl View for Mode {
    type V = ModeModel;

    open spec fn view(&self) -> ModeModel {
        match *self {
            Mode::Idle => ModeModel::Idle,
            Mode::Custom { plugin } => ModeModel::Custom { plugin: plugin as int },
            Mode::Fence { ch, len } => ModeModel::Fence { ch, len: len as int },
            Mode::Math => ModeModel::Math,
            Mode::Html => ModeModel::Html,
            Mode::TableHead => ModeModel::TableHead,
            Mode::Table => ModeModel::Table,
            Mode::List { blanks } => ModeModel::List { blanks: blanks as int },
            Mode::Quote { blanks } => ModeModel::Quote { blanks: blanks as int },
            Mode::Paragraph => ModeModel::Paragraph,
            Mode::Footnote => ModeModel::Footnote,
        }
    }
}

/// The committed block with the identifier `id` that `text` becomes.
pub open spec fn committed_model(id: int, text: BlockText) -> BlockModel {
    BlockModel {
        id: id as u64,
        status: BlockStatus::Committed,
        kind: text.kind,
        raw: text.raw,
        display: None,
    }
}

/// The blocks `out` are the texts `blocks` in their order, committed and
/// numbered from `first_id` on.
pub open spec fn emitted(out: Seq<Block>, first_id: int, blocks: Seq<BlockText>) -> bool {
    out.len() == blocks.len() && forall|i: int|
        0 <= i < out.len() ==> (#[trigger] out[i])@ == committed_model(first_id + i, blocks[i])
}

/// What holds of a state that the splitter can reach with `n` plugins.
pub open spec fn scan_ok(sc: Scan, n: int) -> bool {
    &&& sc.states.len() == n
    &&& match sc.mode {
        ModeModel::Idle => sc.open.len() == 0,
        ModeModel::Custom { plugin } => 0 <= plugin < n,
        ModeModel::List { blanks } => 0 <= blanks <= sc.open.len() && (blanks > 0
            ==> sc.open[sc.open.len() - blanks] < 0x80),
        ModeModel::Quote { blanks } => 0 <= blanks <= sc.open.len() && (blanks > 0
            ==> sc.open[sc.open.len() - blanks] < 0x80),
        _ => true,
    }
}

/// A streaming splitter of Markdown into blocks.
///
/// Text is handed in chunk by chunk. Each chunk commits the blocks that it
/// completes; what follows the last committed block is the pending block.
/// The blocks depend on the text alone, not on how it was cut into chunks.
pub struct MdStream {
    opts: Options,
    plugins: Vec<Box<dyn BoundaryPlugin>>,
    transformers: Vec<Box<dyn PendingTransformer>>,
    /// The text that came in since the buffer was last cut, of which the
    /// bytes from `start` on follow the last committed block.
    buffer: String,
    /// Where in the buffer the text after the last committed block starts.
    start: usize,
    /// How much of that text is complete lines of the open block.
    scanned: usize,
    mode: Mode,
    next_id: u64,
    consumed: Ghost<Seq<u8>>,
}

impl MdStream {
    /// The text handed in since the stream was made, reset or finalized.
    pub closed spec fn consumed(&self) -> Seq<u8> {
        self.consumed@
    }

    /// The rules of the boundary plugins, in the order in which they are asked.
    pub closed spec fn rules(&self) -> Seq<BoundaryRule> {
        Seq::new(self.plugins@.len(), |i: int| self.plugins@[i].rule())
    }

    /// The identifier that the next block gets.
    pub closed spec fn next_id(&self) -> u64 {
        self.next_id
    }

    /// The rules by which the display text of the pending block is made.
    pub closed spec fn terminator(&self) -> TerminatorRules {
        self.opts.terminator@
    }

    /// How many pending transformers the stream has.
    pub closed spec fn transformer_count(&self) -> nat {
        self.transformers@.len()
    }

    /// The text after the last committed block.
    closed spec fn held(&self) -> Seq<u8> {
        encode_utf8(self.buffer@).subrange(
            self.start as int,
            encode_utf8(self.buffer@).len() as int,
        )
    }

    /// What `held` is, byte by byte.
    proof fn lemma_held(&self)
        requires
            self.start <= encode_utf8(self.buffer@).len(),
        ensures
            self.held().len() == encode_utf8(self.buffer@).len() - self.start,
            forall|j: int|
                0 <= j < self.held().len() ==> self.held()[j] == encode_utf8(
                    self.buffer@,
                )[self.start + j],
    {
    }

    /// The state of the stream is `sc` with the text `tail` still to look at.
    closed spec fn holds(&self, sc: Scan, tail: Seq<u8>) -> bool {
        &&& self.mode@ == sc.mode
        &&& self.start <= encode_utf8(self.buffer@).len() <= usize::MAX
        &&& self.held() == sc.open + tail
        &&& self.scanned == sc.open.len()
        &&& (self.scanned == 0 || sc.open[self.scanned - 1] < 0x80 || tail.len() == 0)
        &&& (self.start == 0 || encode_utf8(self.buffer@)[self.start - 1] < 0x80
            || self.held().len() == 0)
        &&& scan_ok(sc, self.plugins@.len() as int)
        &&& forall|i: int|
            0 <= i < self.plugins@.len() ==> (#[trigger] self.plugins@[i]).state() == sc.states[i]
    }

    /// The stream is in the state that its text leads to.
    pub closed spec fn wf(&self) -> bool {
        self.start == 0 && self.holds(run(self.rules(), self.consumed@), rest(self.consumed@))
    }

    /// A stream with these options that has seen no text and has no plugins.
    pub fn new(opts: Options) -> (r: Self)
        ensures
            r.wf(),
            r.consumed() == Seq::<u8>::empty(),
            r.rules() == Seq::<BoundaryRule>::empty(),
            r.next_id() == 1,
            r.terminator() == opts.terminator@,
            r.transformer_count() == 0,
    {
        let r = MdStream {
            opts,
            plugins: Vec::new(),
            transformers: Vec::new(),
            buffer: String::new(),
            start: 0,
            scanned: 0,
            mode: Mode::Idle,
            next_id: 1,
            consumed: Ghost(Seq::empty()),
        };
        proof {
            lemma_run_of_nothing(r.rules());
            assert(r.rules() =~= Seq::<BoundaryRule>::empty());
            assert(start_scan(r.rules()).states =~= Seq::<Seq<int>>::empty());
            assert(r.held() =~= Seq::<u8>::empty());
            assert(rest(r.consumed@) =~= Seq::<u8>::empty());
        }
        r
    }
}

/// Before any input, the splitter is at its start.
pub proof fn lemma_run_of_nothing(rules: Seq<BoundaryRule>)
    ensures
        run(rules, Seq::empty()) == start_scan(rules),
        rest(Seq::empty()) == Seq::<u8>::empty(),
{
    assert(rest(Seq::empty()) =~= Seq::<u8>::empty());
}

/// A committed block with no blank lines held back is the open block as it stands.
pub proof fn lemma_committed_whole(sc: Scan, kind: BlockKind)
    ensures
        committed_without(sc, kind, 0) == committed(sc, kind),
{
    assert(sc.open.subrange(0, sc.open.len() as int) =~= sc.open);
}

/// A line that is not empty and whose content is blank starts with an ASCII byte.
pub proof fn lemma_blank_line_starts_ascii(line: Seq<u8>)
    requires
        line.len() > 0,
        crate::syntax::blank(line_content(line)),
    ensures
        line[0] < 0x80,
{
    let c = line_content(line);
    if c.len() > 0 {
        assert(c[0] == line[0]);
        assert(crate::pending::marks::space_or_tab(c[0]));
    }
}

impl MdStream {
    /// Commits the open block without the `blanks` bytes of blank lines at its end.
    fn commit(
        &mut self,
        kind: BlockKind,
        blanks: usize,
        out: &mut Vec<Block>,
        Ghost(sc): Ghost<Scan>,
        Ghost(tail): Ghost<Seq<u8>>,
        Ghost(id0): Ghost<int>,
        Ghost(base): Ghost<Seq<BlockText>>,
    )
        requires
            old(self).holds(sc, tail),
            blanks <= old(self).scanned,
            blanks > 0 ==> sc.open[sc.open.len() - blanks] < 0x80,
            old(self).next_id < u64::MAX,
            emitted(old(out)@, id0, base),
            old(self).next_id == id0 + old(out)@.len(),
        ensures
            final(self).holds(committed_without(sc, kind, blanks as int), tail),
            final(self).plugins == old(self).plugins,
            final(self).transformers == old(self).transformers,
            final(self).opts == old(self).opts,
            final(self).consumed == old(self).consumed,
            final(self).buffer == old(self).buffer,
            final(self).next_id == old(self).next_id + 1,
            emitted(
                final(out)@,
                id0,
                base.push(
                    BlockText { kind, raw: sc.open.subrange(0, sc.open.len() - blanks) },
                ),
            ),
    {
        let ghost held = self.held();
        proof {
            self.lemma_held();
        }
        let end = self.start + self.scanned;
        proof {
            assert(blanks > 0 ==> held[sc.open.len() - blanks] == sc.open[sc.open.len() - blanks]);
            assert(self.scanned > 0 ==> held[self.scanned - 1] == sc.open[self.scanned - 1]);
        }
        let raw = owned(str_range(self.buffer.as_str(), self.start, end - blanks));
        proof {
            assert(encode_utf8(raw@) =~= held.subrange(0, sc.open.len() - blanks));
            assert(held.subrange(0, sc.open.len() - blanks) =~= sc.open.subrange(
                0,
                sc.open.len() - blanks,
            ));
        }
        let block = Block {
            id: BlockId(self.next_id),
            status: BlockStatus::Committed,
            kind,
            raw,
            display: None,
        };
        out.push(block);
        self.start = end;
        self.scanned = 0;
        self.mode = Mode::Idle;
        self.next_id = self.next_id + 1;
        proof {
            self.lemma_held();
            assert(self.held() =~= held.subrange(sc.open.len() as int, held.len() as int));
            assert(self.held() =~= Seq::<u8>::empty() + tail);
        }
    }

    /// The first plugin that says that the line can start a block of its own.
    fn first_plugin(&self, content: &str, Ghost(sc): Ghost<Scan>, Ghost(tail): Ghost<Seq<u8>>) -> (r:
        Option<usize>)
        requires
            self.holds(sc, tail),
        ensures
            match r {
                Some(p) => first_opening(self.rules(), content.spec_bytes(), 0) == Some(p as int)
                    && p < self.plugins@.len(),
                None => first_opening(self.rules(), content.spec_bytes(), 0) is None,
            },
    {
        let mut i: usize = 0;
        while i < self.plugins.len()
            invariant
                self.holds(sc, tail),
                i <= self.plugins@.len(),
                first_opening(self.rules(), content.spec_bytes(), 0) == first_opening(
                    self.rules(),
                    content.spec_bytes(),
                    i as int,
                ),
            decreases self.plugins@.len() - i,
        {
            if self.plugins[i].matches_start(content) {
                return Some(i);
            }
            i += 1;
        }
        None
    }
}

/// What the line opens by the rules of Markdown.
fn classify(content: &str) -> (r: (Mode, BlockKind))
    ensures
        r.0@ == opening(content.spec_bytes()),
        r.1 == markdown_kind(content.spec_bytes()),
{
    let c = content.as_bytes();
    match parse_fence_line(content) {
        Some((ch, len)) => (Mode::Fence { ch, len }, BlockKind::CodeFence),
        None => {
            if is_math_delimiter(c) {
                (Mode::Math, BlockKind::MathBlock)
            } else if is_atx_heading(c) {
                (Mode::Idle, BlockKind::Heading)
            } else if is_thematic_break(c) {
                (Mode::Idle, BlockKind::ThematicBreak)
            } else if is_html_opener(c) {
                (Mode::Html, BlockKind::HtmlBlock)
            } else if is_list_marker(c) {
                (Mode::List { blanks: 0 }, BlockKind::List)
            } else if is_quote_marker(c) {
                (Mode::Quote { blanks: 0 }, BlockKind::BlockQuote)
            } else if is_table_row(c) {
                (Mode::TableHead, BlockKind::Table)
            } else if is_footnote_definition(c) {
                (Mode::Footnote, BlockKind::FootnoteDefinition)
            } else {
                (Mode::Paragraph, BlockKind::Paragraph)
            }
        },
    }
}

impl MdStream {
    /// Takes in a line that arrives while no block is open.
    #[verifier::rlimit(50)]
    fn open_block(
        &mut self,
        line: &str,
        content: &str,
        out: &mut Vec<Block>,
        Ghost(sc): Ghost<Scan>,
        Ghost(tail): Ghost<Seq<u8>>,
        Ghost(id0): Ghost<int>,
        Ghost(base): Ghost<Seq<BlockText>>,
    )
        requires
            old(self).holds(sc, tail),
            sc.mode is Idle,
            line.spec_bytes().len() > 0,
            line.spec_bytes().len() <= tail.len(),
            tail.subrange(0, line.spec_bytes().len() as int) == line.spec_bytes(),
            line.spec_bytes().len() == tail.len() || line.spec_bytes().last() < 0x80,
            content.spec_bytes() == line_content(line.spec_bytes()),
            old(self).next_id < u64::MAX,
            emitted(old(out)@, id0, base),
            old(self).next_id == id0 + old(out)@.len(),
        ensures
            final(self).holds(
                opened(old(self).rules(), sc, line.spec_bytes()),
                tail.subrange(line.spec_bytes().len() as int, tail.len() as int),
            ),
            final(self).rules() == old(self).rules(),
            final(self).plugins@.len() == old(self).plugins@.len(),
            final(self).transformers == old(self).transformers,
            final(self).opts == old(self).opts,
            final(self).consumed == old(self).consumed,
            final(self).buffer == old(self).buffer,
            old(self).next_id <= final(self).next_id <= old(self).next_id + 1,
            final(self).next_id == id0 + final(out)@.len(),
            opened(old(self).rules(), sc, line.spec_bytes()).blocks.len() >= sc.blocks.len(),
            opened(old(self).rules(), sc, line.spec_bytes()).blocks.subrange(
                0,
                sc.blocks.len() as int,
            ) == sc.blocks,
            emitted(
                final(out)@,
                id0,
                base + opened(old(self).rules(), sc, line.spec_bytes()).blocks.subrange(
                    sc.blocks.len() as int,
                    opened(old(self).rules(), sc, line.spec_bytes()).blocks.len() as int,
                ),
            ),
    {
        let ghost rules = self.rules();
        let ghost l = line.spec_bytes();
        let ghost after = opened(rules, sc, l);
        let ghost tail2 = tail.subrange(l.len() as int, tail.len() as int);
        let len = line.as_bytes().len();
        proof {
            assert(sc.open.len() == 0);
            assert(sc.open + tail =~= tail);
        }
        if is_blank(content.as_bytes()) {
            let ghost held = self.held();
            proof {
                self.lemma_held();
            }
            self.start = self.start + len;
            proof {
                self.lemma_held();
                assert(held[len - 1] == l[len - 1]);
                assert(self.held() =~= held.subrange(len as int, held.len() as int));
                assert(after.blocks =~= sc.blocks);
                assert(after.blocks.subrange(0, sc.blocks.len() as int) =~= sc.blocks);
                assert(base + after.blocks.subrange(
                    sc.blocks.len() as int,
                    after.blocks.len() as int,
                ) =~= base);
                assert(self.held() =~= after.open + tail2);
                assert(self.rules() =~= rules);
            }
            return;
        }
        match self.first_plugin(content, Ghost(sc), Ghost(tail)) {
            Some(p) => {
                self.plugins[p].start(content);
                let r = self.plugins[p].update(content);
                self.mode = Mode::Custom { plugin: p };
                self.scanned = len;
                let ghost c = content.spec_bytes();
                let ghost entered = (rules[p as int].enter)(c);
                let ghost stepped = (rules[p as int].step)(entered, c);
                let ghost sc1 = Scan {
                    mode: ModeModel::Custom { plugin: p as int },
                    open: sc.open + l,
                    states: sc.states.update(p as int, stepped.0),
                    ..sc
                };
                proof {
                    assert(self.rules() =~= rules);
                    assert(self.held() =~= sc1.open + tail2);
                    assert(self.holds(sc1, tail2));
                }
                if r == BoundaryUpdate::Close {
                    self.commit(
                        BlockKind::CustomBoundary,
                        0,
                        out,
                        Ghost(sc1),
                        Ghost(tail2),
                        Ghost(id0),
                        Ghost(base),
                    );
                    proof {
                        lemma_committed_whole(sc1, BlockKind::CustomBoundary);
                        assert(after == committed(sc1, BlockKind::CustomBoundary));
                        assert(sc1.open.subrange(0, sc1.open.len() as int) =~= sc1.open);
                        assert(after.blocks.subrange(0, sc.blocks.len() as int) =~= sc.blocks);
                        assert(base + after.blocks.subrange(
                            sc.blocks.len() as int,
                            after.blocks.len() as int,
                        ) =~= base.push(
                            BlockText { kind: BlockKind::CustomBoundary, raw: sc1.open },
                        ));
                    }
                } else {
                    proof {
                        assert(after == sc1);
                        assert(after.blocks.subrange(0, sc.blocks.len() as int) =~= sc.blocks);
                        assert(base + after.blocks.subrange(
                            sc.blocks.len() as int,
                            after.blocks.len() as int,
                        ) =~= base);
                    }
                }
            },
            None => {
                let (mode, kind) = classify(content);
                self.scanned = len;
                let ghost sc1 = Scan { mode: ModeModel::Paragraph, open: sc.open + l, ..sc };
                proof {
                    assert(self.held() =~= sc1.open + tail2);
                }
                match mode {
                    Mode::Idle => {
                        self.mode = Mode::Paragraph;
                        proof {
                            assert(self.holds(sc1, tail2));
                        }
                        self.commit(
                            kind,
                            0,
                            out,
                            Ghost(sc1),
                            Ghost(tail2),
                            Ghost(id0),
                            Ghost(base),
                        );
                        proof {
                            lemma_committed_whole(sc1, kind);
                            assert(after == committed(extended(sc, l), kind));
                            assert(sc1.open.subrange(0, sc1.open.len() as int) =~= sc1.open);
                            assert(after.blocks.subrange(0, sc.blocks.len() as int) =~= sc.blocks);
                            assert(base + after.blocks.subrange(
                                sc.blocks.len() as int,
                                after.blocks.len() as int,
                            ) =~= base.push(BlockText { kind, raw: sc1.open }));
                        }
                    },
                    m => {
                        self.mode = m;
                        proof {
                            assert(after == Scan { mode: m@, open: sc.open + l, ..sc });
                            assert(after.blocks.subrange(0, sc.blocks.len() as int) =~= sc.blocks);
                            assert(base + after.blocks.subrange(
                                sc.blocks.len() as int,
                                after.blocks.len() as int,
                            ) =~= base);
                        }
                    },
                }
            },
        }
    }
}

/// The blocks of `before` are the first blocks of `after`.
pub open spec fn grows(before: Scan, after: Scan) -> bool {
    after.blocks.len() >= before.blocks.len() && after.blocks.subrange(
        0,
        before.blocks.len() as int,
    ) == before.blocks
}

/// The blocks that `after` has and `before` has not.
pub open spec fn added(before: Scan, after: Scan) -> Seq<BlockText> {
    after.blocks.subrange(before.blocks.len() as int, after.blocks.len() as int)
}

impl MdStream {
    /// The stream is ready to take in a line of `len` bytes, which `tail` starts with.
    closed spec fn ready(
        &self,
        out: Seq<Block>,
        sc: Scan,
        tail: Seq<u8>,
        line: Seq<char>,
        content: Seq<char>,
        id0: int,
        base: Seq<BlockText>,
    ) -> bool {
        &&& self.holds(sc, tail)
        &&& encode_utf8(line).len() > 0
        &&& self.scanned + encode_utf8(line).len() <= usize::MAX
        &&& encode_utf8(line).len() <= tail.len()
        &&& tail.subrange(0, encode_utf8(line).len() as int) == encode_utf8(line)
        &&& (encode_utf8(line).len() == tail.len() || encode_utf8(line).last() < 0x80)
        &&& encode_utf8(content) == line_content(encode_utf8(line))
        &&& self.next_id < u64::MAX - 1
        &&& emitted(out, id0, base)
        &&& self.next_id == id0 + out.len()
    }

    /// The stream `post` is the stream `pre` after a step from `sc` to `after`.
    closed spec fn stepped(
        pre: &MdStream,
        post: &MdStream,
        out: Seq<Block>,
        sc: Scan,
        after: Scan,
        rest: Seq<u8>,
        id0: int,
        base: Seq<BlockText>,
    ) -> bool {
        &&& post.holds(after, rest)
        &&& post.rules() == pre.rules()
        &&& post.plugins@.len() == pre.plugins@.len()
        &&& post.transformers == pre.transformers
        &&& post.opts == pre.opts
        &&& post.consumed == pre.consumed
        &&& post.buffer == pre.buffer
        &&& pre.next_id <= post.next_id <= pre.next_id + 2
        &&& post.next_id == id0 + out.len()
        &&& grows(sc, after)
        &&& emitted(out, id0, base + added(sc, after))
    }

    /// Takes in the line that ends at `line_end` of the buffer.
    #[verifier::rlimit(50)]
    fn feed(
        &mut self,
        line_end: usize,
        out: &mut Vec<Block>,
        Ghost(sc): Ghost<Scan>,
        Ghost(tail): Ghost<Seq<u8>>,
        Ghost(id0): Ghost<int>,
        Ghost(base): Ghost<Seq<BlockText>>,
    )
        requires
            old(self).holds(sc, tail),
            old(self).scanned < line_end <= old(self).held().len(),
            line_end == old(self).held().len() || old(self).held()[line_end - 1] < 0x80,
            old(self).next_id < u64::MAX - 1,
            emitted(old(out)@, id0, base),
            old(self).next_id == id0 + old(out)@.len(),
        ensures
            Self::stepped(
                old(self),
                final(self),
                final(out)@,
                sc,
                step_line(
                    old(self).rules(),
                    sc,
                    tail.subrange(0, line_end - old(self).scanned),
                ),
                tail.subrange(line_end - old(self).scanned, tail.len() as int),
                id0,
                base,
            ),
    {
        reveal(step_line);
        let len = line_end - self.scanned;
        let ghost l = tail.subrange(0, len as int);
        proof {
            self.lemma_held();
            assert(self.scanned > 0 ==> self.held()[self.scanned - 1] == sc.open[self.scanned - 1]);
        }
        let line = owned(
            str_range(self.buffer.as_str(), self.start + self.scanned, self.start + line_end),
        );
        proof {
            assert(encode_utf8(line@) =~= self.held().subrange(
                self.scanned as int,
                line_end as int,
            ));
        }
        proof {
            assert(encode_utf8(line@) =~= l);
            assert(sc.mode is Idle ==> sc.open + tail =~= tail);
        }
        let clen = content_len(line.as_str().as_bytes());
        let content = str_prefix(line.as_str(), clen);
        match self.mode {
            Mode::Idle => {
                self.open_block(
                    line.as_str(),
                    content,
                    out,
                    Ghost(sc),
                    Ghost(tail),
                    Ghost(id0),
                    Ghost(base),
                );
            },
            Mode::Custom { plugin } => {
                self.feed_custom(
                    plugin,
                    line.as_str(),
                    content,
                    out,
                    Ghost(sc),
                    Ghost(tail),
                    Ghost(id0),
                    Ghost(base),
                );
            },
            Mode::Table => {
                self.feed_table(
                    line.as_str(),
                    content,
                    out,
                    Ghost(sc),
                    Ghost(tail),
                    Ghost(id0),
                    Ghost(base),
                );
            },
            Mode::TableHead => {
                self.feed_table_head(
                    line.as_str(),
                    content,
                    out,
                    Ghost(sc),
                    Ghost(tail),
                    Ghost(id0),
                    Ghost(base),
                );
            },
            Mode::List { blanks } => {
                self.feed_list(
                    blanks,
                    line.as_str(),
                    content,
                    out,
                    Ghost(sc),
                    Ghost(tail),
                    Ghost(id0),
                    Ghost(base),
                );
            },
            Mode::Quote { blanks } => {
                self.feed_quote(
                    blanks,
                    line.as_str(),
                    content,
                    out,
                    Ghost(sc),
                    Ghost(tail),
                    Ghost(id0),
                    Ghost(base),
                );
            },
            _ => {
                self.feed_plain(
                    line.as_str(),
                    content,
                    out,
                    Ghost(sc),
                    Ghost(tail),
                    Ghost(id0),
                    Ghost(base),
                );
            },
        }
    }

    /// Takes in a line of a plugin's block.
    #[verifier::rlimit(50)]
    fn feed_custom(
        &mut self,
        plugin: usize,
        line: &str,
        content: &str,
        out: &mut Vec<Block>,
        Ghost(sc): Ghost<Scan>,
        Ghost(tail): Ghost<Seq<u8>>,
        Ghost(id0): Ghost<int>,
        Ghost(base): Ghost<Seq<BlockText>>,
    )
        requires
            old(self).ready(old(out)@, sc, tail, line@, content@, id0, base),
            old(self).mode == (Mode::Custom { plugin }),
        ensures
            Self::stepped(
                old(self),
                final(self),
                final(out)@,
                sc,
                step_line(old(self).rules(), sc, line.spec_bytes()),
                tail.subrange(line.spec_bytes().len() as int, tail.len() as int),
                id0,
                base,
            ),
    {
        reveal(step_line);
        let ghost rules = self.rules();
        let ghost l = line.spec_bytes();
        let ghost tail2 = tail.subrange(l.len() as int, tail.len() as int);
        let ghost after = step_line(rules, sc, l);
        let len = line.as_bytes().len();
        let r = self.plugins[plugin].update(content);
        self.scanned = self.scanned + len;
        let ghost stepped = (rules[plugin as int].step)(
            sc.states[plugin as int],
            content.spec_bytes(),
        );
        let ghost sc2 = Scan {
            open: sc.open + l,
            states: sc.states.update(plugin as int, stepped.0),
            ..sc
        };
        proof {
            assert(self.rules() =~= rules);
            assert(sc2.open + tail2 =~= sc.open + tail);
            assert(self.holds(sc2, tail2));
        }
        if r == BoundaryUpdate::Close {
            self.commit(
                BlockKind::CustomBoundary,
                0,
                out,
                Ghost(sc2),
                Ghost(tail2),
                Ghost(id0),
                Ghost(base),
            );
            proof {
                lemma_committed_whole(sc2, BlockKind::CustomBoundary);
                lemma_added_one(
                    sc,
                    after,
                    base,
                    BlockText { kind: BlockKind::CustomBoundary, raw: sc2.open },
                );
                assert(self.rules() =~= rules);
            }
        } else {
            proof {
                lemma_added_none(sc, after, base);
            }
        }
    }

    /// Takes in a line of a block that only a line of its own kind closes.
    #[verifier::rlimit(50)]
    fn feed_plain(
        &mut self,
        line: &str,
        content: &str,
        out: &mut Vec<Block>,
        Ghost(sc): Ghost<Scan>,
        Ghost(tail): Ghost<Seq<u8>>,
        Ghost(id0): Ghost<int>,
        Ghost(base): Ghost<Seq<BlockText>>,
    )
        requires
            old(self).ready(old(out)@, sc, tail, line@, content@, id0, base),
            old(self).mode is Fence || old(self).mode is Math || old(self).mode is Html || old(
                self,
            ).mode is Paragraph || old(self).mode is Footnote,
        ensures
            Self::stepped(
                old(self),
                final(self),
                final(out)@,
                sc,
                step_line(old(self).rules(), sc, line.spec_bytes()),
                tail.subrange(line.spec_bytes().len() as int, tail.len() as int),
                id0,
                base,
            ),
    {
        reveal(step_line);
        let ghost rules = self.rules();
        let c = content.as_bytes();
        let line_end = self.scanned + line.as_bytes().len();
        let (closes, kind) = match self.mode {
            Mode::Fence { ch, len } => (is_fence_close(c, ch, len), BlockKind::CodeFence),
            Mode::Math => (is_math_delimiter(c), BlockKind::MathBlock),
            Mode::Html => (is_blank(c), BlockKind::HtmlBlock),
            Mode::Footnote => (is_blank(c), BlockKind::FootnoteDefinition),
            _ => (is_blank(c), BlockKind::Paragraph),
        };
        self.finish_line(
            line_end,
            closes,
            kind,
            out,
            Ghost(sc),
            Ghost(tail),
            Ghost(id0),
            Ghost(base),
        );
        proof {
            assert(self.rules() =~= rules);
        }
    }

    /// Takes in the line after the first line of what may be a table.
    #[verifier::rlimit(50)]
    fn feed_table_head(
        &mut self,
        line: &str,
        content: &str,
        out: &mut Vec<Block>,
        Ghost(sc): Ghost<Scan>,
        Ghost(tail): Ghost<Seq<u8>>,
        Ghost(id0): Ghost<int>,
        Ghost(base): Ghost<Seq<BlockText>>,
    )
        requires
            old(self).ready(old(out)@, sc, tail, line@, content@, id0, base),
            old(self).mode is TableHead,
        ensures
            Self::stepped(
                old(self),
                final(self),
                final(out)@,
                sc,
                step_line(old(self).rules(), sc, line.spec_bytes()),
                tail.subrange(line.spec_bytes().len() as int, tail.len() as int),
                id0,
                base,
            ),
    {
        reveal(step_line);
        let ghost rules = self.rules();
        let ghost l = line.spec_bytes();
        let ghost tail2 = tail.subrange(l.len() as int, tail.len() as int);
        let ghost after = step_line(rules, sc, l);
        let c = content.as_bytes();
        let line_end = self.scanned + line.as_bytes().len();
        if is_delimiter_row(c) {
            self.mode = Mode::Table;
            self.scanned = line_end;
            proof {
                assert(after.open + tail2 =~= sc.open + tail);
                lemma_added_none(sc, after, base);
                assert(self.rules() =~= rules);
            }
        } else {
            self.mode = Mode::Paragraph;
            let closes = is_blank(c);
            self.finish_line(
                line_end,
                closes,
                BlockKind::Paragraph,
                out,
                Ghost(Scan { mode: ModeModel::Paragraph, ..sc }),
                Ghost(tail),
                Ghost(id0),
                Ghost(base),
            );
            proof {
                assert(self.rules() =~= rules);
            }
        }
    }

    /// Takes in a line while a table is open.
    #[verifier::rlimit(50)]
    fn feed_table(
        &mut self,
        line: &str,
        content: &str,
        out: &mut Vec<Block>,
        Ghost(sc): Ghost<Scan>,
        Ghost(tail): Ghost<Seq<u8>>,
        Ghost(id0): Ghost<int>,
        Ghost(base): Ghost<Seq<BlockText>>,
    )
        requires
            old(self).ready(old(out)@, sc, tail, line@, content@, id0, base),
            old(self).mode is Table,
        ensures
            Self::stepped(
                old(self),
                final(self),
                final(out)@,
                sc,
                step_line(old(self).rules(), sc, line.spec_bytes()),
                tail.subrange(line.spec_bytes().len() as int, tail.len() as int),
                id0,
                base,
            ),
    {
        reveal(step_line);
        let ghost rules = self.rules();
        let ghost l = line.spec_bytes();
        let ghost tail2 = tail.subrange(l.len() as int, tail.len() as int);
        let ghost after = step_line(rules, sc, l);
        let c = content.as_bytes();
        let line_end = self.scanned + line.as_bytes().len();
        if is_blank(c) {
            self.finish_line(
                line_end,
                true,
                BlockKind::Table,
                out,
                Ghost(sc),
                Ghost(tail),
                Ghost(id0),
                Ghost(base),
            );
            proof {
                assert(self.rules() =~= rules);
            }
        } else if is_table_row(c) {
            self.scanned = line_end;
            proof {
                assert(after.open + tail2 =~= sc.open + tail);
                lemma_added_none(sc, after, base);
                assert(self.rules() =~= rules);
            }
        } else {
            self.end_before(
                BlockKind::Table,
                0,
                line,
                content,
                out,
                Ghost(sc),
                Ghost(tail),
                Ghost(id0),
                Ghost(base),
            );
            proof {
                lemma_committed_whole(sc, BlockKind::Table);
            }
        }
    }

    /// Takes in a line while a list is open.
    #[verifier::rlimit(50)]
    fn feed_list(
        &mut self,
        blanks: usize,
        line: &str,
        content: &str,
        out: &mut Vec<Block>,
        Ghost(sc): Ghost<Scan>,
        Ghost(tail): Ghost<Seq<u8>>,
        Ghost(id0): Ghost<int>,
        Ghost(base): Ghost<Seq<BlockText>>,
    )
        requires
            old(self).ready(old(out)@, sc, tail, line@, content@, id0, base),
            old(self).mode == (Mode::List { blanks }),
        ensures
            Self::stepped(
                old(self),
                final(self),
                final(out)@,
                sc,
                step_line(old(self).rules(), sc, line.spec_bytes()),
                tail.subrange(line.spec_bytes().len() as int, tail.len() as int),
                id0,
                base,
            ),
    {
        reveal(step_line);
        let ghost rules = self.rules();
        let ghost l = line.spec_bytes();
        let ghost tail2 = tail.subrange(l.len() as int, tail.len() as int);
        let ghost after = step_line(rules, sc, l);
        let c = content.as_bytes();
        let len = line.as_bytes().len();
        let line_end = self.scanned + len;
        if is_blank(c) {
            proof {
                lemma_blank_line_starts_ascii(l);
            }
            self.mode = Mode::List { blanks: blanks + len };
            self.scanned = line_end;
            proof {
                assert(after.open + tail2 =~= sc.open + tail);
                lemma_added_none(sc, after, base);
                assert(self.rules() =~= rules);
            }
        } else if is_list_marker(c) {
            self.mode = Mode::List { blanks: 0 };
            self.scanned = line_end;
            proof {
                assert(after.open + tail2 =~= sc.open + tail);
                lemma_added_none(sc, after, base);
                assert(self.rules() =~= rules);
            }
        } else {
            self.end_before(
                BlockKind::List,
                blanks,
                line,
                content,
                out,
                Ghost(sc),
                Ghost(tail),
                Ghost(id0),
                Ghost(base),
            );
        }
    }

    /// Takes in a line while a block quote is open.
    #[verifier::rlimit(50)]
    fn feed_quote(
        &mut self,
        blanks: usize,
        line: &str,
        content: &str,
        out: &mut Vec<Block>,
        Ghost(sc): Ghost<Scan>,
        Ghost(tail): Ghost<Seq<u8>>,
        Ghost(id0): Ghost<int>,
        Ghost(base): Ghost<Seq<BlockText>>,
    )
        requires
            old(self).ready(old(out)@, sc, tail, line@, content@, id0, base),
            old(self).mode == (Mode::Quote { blanks }),
        ensures
            Self::stepped(
                old(self),
                final(self),
                final(out)@,
                sc,
                step_line(old(self).rules(), sc, line.spec_bytes()),
                tail.subrange(line.spec_bytes().len() as int, tail.len() as int),
                id0,
                base,
            ),
    {
        reveal(step_line);
        let ghost rules = self.rules();
        let ghost l = line.spec_bytes();
        let ghost tail2 = tail.subrange(l.len() as int, tail.len() as int);
        let ghost after = step_line(rules, sc, l);
        let c = content.as_bytes();
        let len = line.as_bytes().len();
        let line_end = self.scanned + len;
        if is_blank(c) {
            proof {
                lemma_blank_line_starts_ascii(l);
            }
            self.mode = Mode::Quote { blanks: blanks + len };
            self.scanned = line_end;
            proof {
                assert(after.open + tail2 =~= sc.open + tail);
                lemma_added_none(sc, after, base);
                assert(self.rules() =~= rules);
            }
        } else if is_quote_marker(c) {
            self.mode = Mode::Quote { blanks: 0 };
            self.scanned = line_end;
            proof {
                assert(after.open + tail2 =~= sc.open + tail);
                lemma_added_none(sc, after, base);
                assert(self.rules() =~= rules);
            }
        } else {
            self.end_before(
                BlockKind::BlockQuote,
                blanks,
                line,
                content,
                out,
                Ghost(sc),
                Ghost(tail),
                Ghost(id0),
                Ghost(base),
            );
        }
    }

    /// The line up to `line_end` joins the open block, which is then
    /// committed as `kind` where `closes` says so.
    #[verifier::rlimit(50)]
    fn finish_line(
        &mut self,
        line_end: usize,
        closes: bool,
        kind: BlockKind,
        out: &mut Vec<Block>,
        Ghost(sc): Ghost<Scan>,
        Ghost(tail): Ghost<Seq<u8>>,
        Ghost(id0): Ghost<int>,
        Ghost(base): Ghost<Seq<BlockText>>,
    )
        requires
            old(self).holds(sc, tail),
            !(sc.mode is Idle),
            !(sc.mode is List),
            !(sc.mode is Quote),
            old(self).scanned < line_end <= old(self).held().len(),
            line_end == old(self).held().len() || old(self).held()[line_end - 1] < 0x80,
            old(self).next_id < u64::MAX,
            emitted(old(out)@, id0, base),
            old(self).next_id == id0 + old(out)@.len(),
        ensures
            ({
                let l = tail.subrange(0, line_end - old(self).scanned);
                let after = crate::stream::model::continued(sc, l, closes, kind);
                &&& final(self).holds(
                    after,
                    tail.subrange(line_end - old(self).scanned, tail.len() as int),
                )
                &&& grows(sc, after)
                &&& emitted(final(out)@, id0, base + added(sc, after))
            }),
            final(self).plugins == old(self).plugins,
            final(self).transformers == old(self).transformers,
            final(self).opts == old(self).opts,
            final(self).consumed == old(self).consumed,
            final(self).buffer == old(self).buffer,
            old(self).next_id <= final(self).next_id <= old(self).next_id + 1,
            final(self).next_id == id0 + final(out)@.len(),
            !closes ==> final(self).mode == old(self).mode,
    {
        let ghost len = line_end - self.scanned;
        let ghost l = tail.subrange(0, len as int);
        let ghost tail2 = tail.subrange(len as int, tail.len() as int);
        let ghost after = crate::stream::model::continued(sc, l, closes, kind);
        let ghost sc1 = extended(sc, l);
        proof {
            assert(sc1.open + tail2 =~= sc.open + tail);
        }
        if closes {
            self.mode = Mode::Paragraph;
        }
        self.scanned = line_end;
        if closes {
            let ghost sc2 = Scan { mode: ModeModel::Paragraph, ..sc1 };
            self.commit(kind, 0, out, Ghost(sc2), Ghost(tail2), Ghost(id0), Ghost(base));
            proof {
                lemma_committed_whole(sc2, kind);
                assert(after == committed(sc1, kind));
                lemma_added_one(sc, after, base, BlockText { kind, raw: sc1.open });
            }
        } else {
            proof {
                lemma_added_none(sc, after, base);
            }
        }
    }

    /// The open block ends before the line, which opens the next block.
    #[verifier::rlimit(50)]
    fn end_before(
        &mut self,
        kind: BlockKind,
        blanks: usize,
        line: &str,
        content: &str,
        out: &mut Vec<Block>,
        Ghost(sc): Ghost<Scan>,
        Ghost(tail): Ghost<Seq<u8>>,
        Ghost(id0): Ghost<int>,
        Ghost(base): Ghost<Seq<BlockText>>,
    )
        requires
            old(self).holds(sc, tail),
            blanks <= old(self).scanned,
            blanks > 0 ==> sc.open[sc.open.len() - blanks] < 0x80,
            line.spec_bytes().len() > 0,
            line.spec_bytes().len() <= tail.len(),
            tail.subrange(0, line.spec_bytes().len() as int) == line.spec_bytes(),
            line.spec_bytes().len() == tail.len() || line.spec_bytes().last() < 0x80,
            content.spec_bytes() == line_content(line.spec_bytes()),
            old(self).next_id < u64::MAX - 1,
            emitted(old(out)@, id0, base),
            old(self).next_id == id0 + old(out)@.len(),
        ensures
            ({
                let after = opened(
                    old(self).rules(),
                    committed_without(sc, kind, blanks as int),
                    line.spec_bytes(),
                );
                &&& final(self).holds(
                    after,
                    tail.subrange(line.spec_bytes().len() as int, tail.len() as int),
                )
                &&& grows(sc, after)
                &&& emitted(final(out)@, id0, base + added(sc, after))
            }),
            final(self).rules() == old(self).rules(),
            final(self).plugins@.len() == old(self).plugins@.len(),
            final(self).transformers == old(self).transformers,
            final(self).opts == old(self).opts,
            final(self).consumed == old(self).consumed,
            final(self).buffer == old(self).buffer,
            old(self).next_id <= final(self).next_id <= old(self).next_id + 2,
            final(self).next_id == id0 + final(out)@.len(),
    {
        let ghost rules = self.rules();
        let ghost mid = committed_without(sc, kind, blanks as int);
        let ghost after = opened(rules, mid, line.spec_bytes());
        let ghost one = base.push(
            BlockText { kind, raw: sc.open.subrange(0, sc.open.len() - blanks) },
        );
        self.commit(kind, blanks, out, Ghost(sc), Ghost(tail), Ghost(id0), Ghost(base));
        proof {
            assert(self.rules() =~= rules);
        }
        self.open_block(line, content, out, Ghost(mid), Ghost(tail), Ghost(id0), Ghost(one));
        proof {
            let x = BlockText { kind, raw: sc.open.subrange(0, sc.open.len() - blanks) };
            assert(mid.blocks == sc.blocks.push(x));
            assert(mid.blocks.subrange(0, sc.blocks.len() as int) =~= sc.blocks);
            assert(after.blocks.subrange(0, sc.blocks.len() as int) =~= after.blocks.subrange(
                0,
                mid.blocks.len() as int,
            ).subrange(0, sc.blocks.len() as int));
            assert(after.blocks[sc.blocks.len() as int] == after.blocks.subrange(
                0,
                mid.blocks.len() as int,
            )[sc.blocks.len() as int]);
            assert(added(sc, after) =~= seq![x] + added(mid, after));
            assert(base + added(sc, after) =~= one + added(mid, after));
        }
    }
}

/// A step that commits nothing adds no block.
pub proof fn lemma_added_none(sc: Scan, after: Scan, base: Seq<BlockText>)
    requires
        after.blocks == sc.blocks,
    ensures
        grows(sc, after),
        base + added(sc, after) == base,
{
    assert(after.blocks.subrange(0, sc.blocks.len() as int) =~= sc.blocks);
    assert(base + added(sc, after) =~= base);
}

/// A step that commits one block adds that block.
pub proof fn lemma_added_one(sc: Scan, after: Scan, base: Seq<BlockText>, block: BlockText)
    requires
        after.blocks == sc.blocks.push(block),
    ensures
        grows(sc, after),
        base + added(sc, after) == base.push(block),
{
    assert(after.blocks.subrange(0, sc.blocks.len() as int) =~= sc.blocks);
    assert(base + added(sc, after) =~= base.push(block));
}

/// Where a line starts does not depend on what follows the line.
pub proof fn lemma_line_start_prefix(a: Seq<u8>, b: Seq<u8>, i: int)
    requires
        0 <= i <= a.len(),
    ensures
        line_start(a + b, i) == line_start(a, i),
    decreases i,
{
    if i > 0 && a[i - 1] != NEWLINE {
        assert((a + b)[i - 1] == a[i - 1]);
        lemma_line_start_prefix(a, b, i - 1);
    }
}

/// The line that holds `i` starts at `k`, where `k` starts a line and no
/// newline stands between `k` and `i`.
pub proof fn lemma_line_start_is(s: Seq<u8>, i: int, k: int)
    requires
        0 <= k <= i <= s.len(),
        k == 0 || s[k - 1] == NEWLINE,
        forall|j: int| k <= j < i ==> s[j] != NEWLINE,
    ensures
        line_start(s, i) == k,
    decreases i,
{
    if i > k {
        lemma_line_start_is(s, i - 1, k);
    }
}

/// The state after the lines up to `k` does not depend on what follows them.
pub proof fn lemma_scan_at_prefix(rules: Seq<BoundaryRule>, a: Seq<u8>, b: Seq<u8>, k: int)
    requires
        0 <= k <= a.len(),
    ensures
        scan_at(rules, a + b, k) == scan_at(rules, a, k),
    decreases k,
{
    if k > 0 {
        lemma_line_start_prefix(a, b, k - 1);
        lemma_line_start(a, k - 1);
        let p = line_start(a, k - 1);
        assert((a + b).subrange(p, k) =~= a.subrange(p, k));
        lemma_scan_at_prefix(rules, a, b, p);
    }
}

/// One more line takes the state one step on.
pub proof fn lemma_scan_step(rules: Seq<BoundaryRule>, input: Seq<u8>, k: int, e: int)
    requires
        0 <= k <= e < input.len(),
        k == 0 || input[k - 1] == NEWLINE,
        forall|j: int| k <= j < e ==> input[j] != NEWLINE,
    ensures
        scan_at(rules, input, e + 1) == step_line(
            rules,
            scan_at(rules, input, k),
            input.subrange(k, e + 1),
        ),
{
    lemma_line_start_is(input, e, k);
}

/// How many times `c` occurs in a range, cut in two.
pub proof fn lemma_count_split(s: Seq<u8>, c: u8, lo: int, mid: int, hi: int)
    requires
        0 <= lo <= mid <= hi <= s.len(),
    ensures
        crate::pending::marks::count_byte(s, c, lo, hi) == crate::pending::marks::count_byte(
            s,
            c,
            lo,
            mid,
        ) + crate::pending::marks::count_byte(s, c, mid, hi),
        crate::pending::marks::count_byte(s, c, lo, hi) <= hi - lo,
        (forall|j: int| lo <= j < hi ==> s[j] != c) ==> crate::pending::marks::count_byte(
            s,
            c,
            lo,
            hi,
        ) == 0,
    decreases hi - lo,
{
    if lo < hi {
        if lo < mid {
            lemma_count_split(s, c, lo + 1, mid, hi);
        } else {
            lemma_count_split(s, c, lo + 1, lo + 1, hi);
        }
    }
}

/// The pending block `block` shows the text `text` under the identifier `id`.
pub open spec fn shows_pending(block: Block, id: int, text: BlockText) -> bool {
    block.id.0 == id && block.status == BlockStatus::Pending && block.kind == text.kind
        && encode_utf8(block.raw@) == text.raw && block.display is Some
}

impl MdStream {
    /// The pending block of the stream.
    #[verifier::rlimit(50)]
    fn pending(&self, Ghost(sc): Ghost<Scan>, Ghost(tail): Ghost<Seq<u8>>) -> (r: Option<Block>)
        requires
            self.holds(sc, tail),
        ensures
            match pending_of(self.rules(), sc, tail) {
                None => r is None,
                Some(text) => r is Some && shows_pending(r->0, self.next_id as int, text)
                    && (self.transformers@.len() == 0 ==> encode_utf8(r->0.display->0@)
                    == terminated(text.raw, self.opts.terminator@)),
            },
    {
        let blen = self.buffer.as_str().as_bytes().len();
        proof {
            self.lemma_held();
        }
        if self.start >= blen {
            return None;
        }
        let held = str_suffix(self.buffer.as_str(), self.start);
        let bytes = held.as_bytes();
        let kind = match self.mode {
            Mode::Idle => {
                proof {
                    assert(sc.open + tail =~= tail);
                }
                let clen = content_len(bytes);
                let content = str_prefix(held, clen);
                if is_blank(content.as_bytes()) {
                    BlockKind::Unknown
                } else if self.first_plugin(content, Ghost(sc), Ghost(tail)).is_some() {
                    BlockKind::CustomBoundary
                } else {
                    classify(content).1
                }
            },
            Mode::Custom { .. } => BlockKind::CustomBoundary,
            Mode::Fence { .. } => BlockKind::CodeFence,
            Mode::Math => BlockKind::MathBlock,
            Mode::Html => BlockKind::HtmlBlock,
            Mode::TableHead => BlockKind::Table,
            Mode::Table => BlockKind::Table,
            Mode::List { .. } => BlockKind::List,
            Mode::Quote { .. } => BlockKind::BlockQuote,
            Mode::Paragraph => BlockKind::Paragraph,
            Mode::Footnote => BlockKind::FootnoteDefinition,
        };
        let raw = owned(held);
        let mut display = terminate_markdown(raw.as_str(), &self.opts.terminator);
        let mut i: usize = 0;
        while i < self.transformers.len()
            invariant
                self.holds(sc, tail),
                i <= self.transformers@.len(),
                self.transformers@.len() == 0 ==> encode_utf8(display@) == terminated(
                    encode_utf8(raw@),
                    self.opts.terminator@,
                ),
            decreases self.transformers@.len() - i,
        {
            let input = PendingTransformInput {
                kind,
                raw: raw.as_str(),
                display: display.as_str(),
            };
            let answer = self.transformers[i].transform(input);
            display = apply_answer(display, answer);
            i += 1;
        }
        Some(
            Block {
                id: BlockId(self.next_id),
                status: BlockStatus::Pending,
                kind,
                raw,
                display: Some(display),
            },
        )
    }

    /// The same as `holds`, for the functions that do not look inside the state.
    #[verifier::opaque]
    closed spec fn poised(&self, sc: Scan, tail: Seq<u8>) -> bool {
        self.holds(sc, tail)
    }

    /// The same as `stepped`, over `poised`.
    closed spec fn moved(
        pre: &MdStream,
        post: &MdStream,
        out: Seq<Block>,
        sc: Scan,
        after: Scan,
        rest: Seq<u8>,
        id0: int,
        base: Seq<BlockText>,
    ) -> bool {
        &&& post.poised(after, rest)
        &&& post.rules() == pre.rules()
        &&& post.transformers == pre.transformers
        &&& post.opts == pre.opts
        &&& post.consumed == pre.consumed
        &&& post.buffer == pre.buffer
        &&& pre.next_id <= post.next_id <= pre.next_id + 2
        &&& post.next_id == id0 + out.len()
        &&& grows(sc, after)
        &&& emitted(out, id0, base + added(sc, after))
    }

    /// What `wf` says in terms of `poised`.
    proof fn lemma_wf_is_poised(&self)
        ensures
            self.wf() == (self.start == 0 && self.poised(
                run(self.rules(), self.consumed@),
                rest(self.consumed@),
            )),
    {
        reveal(MdStream::poised);
    }

    /// Puts the chunk at the end of the buffer.
    fn take(&mut self, chunk: &str, Ghost(sc): Ghost<Scan>, Ghost(tail): Ghost<Seq<u8>>) -> (size:
        usize)
        requires
            old(self).poised(sc, tail),
            old(self).start == 0,
            sc.open.len() == 0 || sc.open.last() == NEWLINE,
        ensures
            final(self).poised(sc, tail + chunk.spec_bytes()),
            final(self).rules() == old(self).rules(),
            final(self).transformers == old(self).transformers,
            final(self).opts == old(self).opts,
            final(self).next_id == old(self).next_id,
            final(self).consumed@ == old(self).consumed@ + chunk.spec_bytes(),
            size == encode_utf8(final(self).buffer@).len(),
    {
        reveal(MdStream::poised);
        let ghost rules = self.rules();
        proof {
            self.lemma_held();
        }
        push_str(&mut self.buffer, chunk);
        self.consumed = Ghost(self.consumed@ + chunk.spec_bytes());
        let size = self.buffer.as_str().as_bytes().len();
        proof {
            assert(self.rules() =~= rules);
            assert(sc.open + (tail + chunk.spec_bytes()) =~= sc.open + tail + chunk.spec_bytes());
            assert(self.held() =~= sc.open + (tail + chunk.spec_bytes()));
        }
        size
    }

    /// Cuts off the buffer what has been committed.
    fn compact(&mut self, Ghost(sc): Ghost<Scan>, Ghost(tail): Ghost<Seq<u8>>)
        requires
            old(self).poised(sc, tail),
        ensures
            final(self).poised(sc, tail),
            final(self).start == 0,
            final(self).rules() == old(self).rules(),
            final(self).transformers == old(self).transformers,
            final(self).opts == old(self).opts,
            final(self).next_id == old(self).next_id,
            final(self).consumed == old(self).consumed,
    {
        reveal(MdStream::poised);
        let ghost rules = self.rules();
        if self.start > 0 {
            proof {
                self.lemma_held();
            }
            let rest = owned(str_suffix(self.buffer.as_str(), self.start));
            self.buffer = rest;
            self.start = 0;
            proof {
                assert(self.held() =~= sc.open + tail);
                assert(self.rules() =~= rules);
            }
        }
    }

    /// The length of the first line of what is still to look at, if the
    /// line is complete.
    fn next_line(&self, size: usize, Ghost(sc): Ghost<Scan>, Ghost(tail): Ghost<Seq<u8>>) -> (r:
        Option<usize>)
        requires
            self.poised(sc, tail),
            size == encode_utf8(self.buffer@).len(),
        ensures
            match r {
                Some(len) => 0 < len <= tail.len() && tail[len - 1] == NEWLINE && forall|j: int|
                    0 <= j < len - 1 ==> tail[j] != NEWLINE,
                None => forall|j: int| 0 <= j < tail.len() ==> tail[j] != NEWLINE,
            },
    {
        reveal(MdStream::poised);
        let bytes = self.buffer.as_str().as_bytes();
        proof {
            self.lemma_held();
            assert(self.held().len() == sc.open.len() + tail.len());
        }
        let from = self.start + self.scanned;
        let e = first_byte_from(bytes, NEWLINE, from);
        proof {
            lemma_find_byte_from(bytes@, NEWLINE, from as int);
            assert(forall|j: int| 0 <= j < tail.len() ==> tail[j] == self.held()[j + self.scanned]);
        }
        if e >= size {
            None
        } else {
            Some(e + 1 - from)
        }
    }

    /// Takes in the complete line of `len` bytes that is next.
    fn advance(
        &mut self,
        len: usize,
        out: &mut Vec<Block>,
        Ghost(sc): Ghost<Scan>,
        Ghost(tail): Ghost<Seq<u8>>,
        Ghost(id0): Ghost<int>,
        Ghost(base): Ghost<Seq<BlockText>>,
    )
        requires
            old(self).poised(sc, tail),
            0 < len <= tail.len(),
            len == tail.len() || tail[len - 1] < 0x80,
            old(self).next_id < u64::MAX - 1,
            emitted(old(out)@, id0, base),
            old(self).next_id == id0 + old(out)@.len(),
        ensures
            Self::moved(
                old(self),
                final(self),
                final(out)@,
                sc,
                step_line(old(self).rules(), sc, tail.subrange(0, len as int)),
                tail.subrange(len as int, tail.len() as int),
                id0,
                base,
            ),
    {
        reveal(MdStream::poised);
        proof {
            self.lemma_held();
            assert(len < tail.len() ==> self.held()[self.scanned + len - 1] == tail[len - 1]);
        }
        self.feed(self.scanned + len, out, Ghost(sc), Ghost(tail), Ghost(id0), Ghost(base));
    }

    /// The pending block of a stream that has looked at all its complete lines.
    fn pending_now(&self, Ghost(sc): Ghost<Scan>, Ghost(tail): Ghost<Seq<u8>>) -> (r: Option<
        Block,
    >)
        requires
            self.poised(sc, tail),
        ensures
            match pending_of(self.rules(), sc, tail) {
                None => r is None,
                Some(text) => r is Some && shows_pending(r->0, self.next_id as int, text)
                    && (self.transformers@.len() == 0 ==> encode_utf8(r->0.display->0@)
                    == terminated(text.raw, self.opts.terminator@)),
            },
    {
        reveal(MdStream::poised);
        self.pending(Ghost(sc), Ghost(tail))
    }

    /// The text `chunk` joins the stream. The update holds the blocks that
    /// the chunk has completed, and the pending block as it is now.
    #[verifier::rlimit(50)]
    pub fn append(&mut self, chunk: &str) -> (update: Update)
        requires
            old(self).wf(),
            old(self).next_id() + 2 * chunk.spec_bytes().len() + 2 <= u64::MAX,
        ensures
            final(self).wf(),
            final(self).consumed() == old(self).consumed() + chunk.spec_bytes(),
            final(self).rules() == old(self).rules(),
            final(self).terminator() == old(self).terminator(),
            final(self).transformer_count() == old(self).transformer_count(),
            final(self).next_id() == old(self).next_id() + update.committed@.len(),
            committed_blocks(final(self).rules(), final(self).consumed()).len()
                >= committed_blocks(old(self).rules(), old(self).consumed()).len(),
            committed_blocks(final(self).rules(), final(self).consumed()).subrange(
                0,
                committed_blocks(old(self).rules(), old(self).consumed()).len() as int,
            ) == committed_blocks(old(self).rules(), old(self).consumed()),
            emitted(
                update.committed@,
                old(self).next_id() as int,
                committed_blocks(final(self).rules(), final(self).consumed()).subrange(
                    committed_blocks(old(self).rules(), old(self).consumed()).len() as int,
                    committed_blocks(final(self).rules(), final(self).consumed()).len() as int,
                ),
            ),
            match pending_block(final(self).rules(), final(self).consumed()) {
                None => update.pending is None,
                Some(text) => update.pending is Some && shows_pending(
                    update.pending->0,
                    final(self).next_id() as int,
                    text,
                ) && (final(self).transformer_count() == 0 ==> encode_utf8(
                    update.pending->0.display->0@,
                ) == terminated(text.raw, final(self).terminator())),
            },
            update.invalidated@.len() == 0,
    {
        let ghost rules = self.rules();
        let ghost before = self.consumed@;
        let ghost total = before + chunk.spec_bytes();
        let ghost start = run(rules, before);
        let ghost k0 = lines_end(before);
        let ghost id0 = self.next_id as int;
        let ghost pre = *self;
        proof {
            self.lemma_wf_is_poised();
            lemma_line_start(before, before.len() as int);
            lemma_open_ends_line(rules, before, k0);
            lemma_scan_at_prefix(rules, before, chunk.spec_bytes(), k0);
            assert(rest(before) + chunk.spec_bytes() =~= total.subrange(k0, total.len() as int));
            assert(forall|j: int| k0 <= j < before.len() ==> total[j] == before[j]);
            lemma_count_split(total, NEWLINE, k0, k0, before.len() as int);
            lemma_count_split(
                total,
                NEWLINE,
                before.len() as int,
                before.len() as int,
                total.len() as int,
            );
            lemma_count_split(total, NEWLINE, k0, before.len() as int, total.len() as int);
        }
        let size = self.take(chunk, Ghost(start), Ghost(rest(before)));
        let mut committed: Vec<Block> = Vec::new();
        let ghost mut k: int = k0;
        proof {
            lemma_added_none(start, start, Seq::empty());
            assert(added(start, start) =~= Seq::<BlockText>::empty());
        }
        loop
            invariant
                self.poised(scan_at(rules, total, k), total.subrange(k, total.len() as int)),
                self.rules() == rules,
                self.consumed@ == total,
                size == encode_utf8(self.buffer@).len(),
                self.opts == pre.opts,
                self.transformers == pre.transformers,
                scan_at(rules, total, k0) == start,
                0 <= k0 <= k <= total.len(),
                k == 0 || total[k - 1] == NEWLINE,
                grows(start, scan_at(rules, total, k)),
                emitted(committed@, id0, added(start, scan_at(rules, total, k))),
                self.next_id == id0 + committed@.len(),
                self.next_id + 2 * crate::pending::marks::count_byte(
                    total,
                    NEWLINE,
                    k,
                    total.len() as int,
                ) + 2 <= u64::MAX,
            ensures
                lines_end(total) == k,
            decreases total.len() - k,
        {
            let ghost sc = scan_at(rules, total, k);
            let ghost tail = total.subrange(k, total.len() as int);
            let len = match self.next_line(size, Ghost(sc), Ghost(tail)) {
                Some(len) => len,
                None => {
                    proof {
                        assert(forall|j: int| k <= j < total.len() ==> total[j] == tail[j - k]);
                        lemma_line_start_is(total, total.len() as int, k);
                    }
                    break;
                },
            };
            let ghost g = k + len - 1;
            proof {
                lemma_next_line(rules, total, k, len as int);
            }
            let ghost base = added(start, sc);
            self.advance(len, &mut committed, Ghost(sc), Ghost(tail), Ghost(id0), Ghost(base));
            proof {
                let next = scan_at(rules, total, g + 1);
                lemma_added_chain(start, sc, next);
                k = g + 1;
            }
        }
        self.compact(
            Ghost(scan_at(rules, total, k)),
            Ghost(total.subrange(k, total.len() as int)),
        );
        proof {
            self.lemma_wf_is_poised();
        }
        let pending = self.pending_now(
            Ghost(scan_at(rules, total, k)),
            Ghost(total.subrange(k, total.len() as int)),
        );
        Update { committed, pending, invalidated: Vec::new() }
    }
}

/// What the next complete line, of `len` bytes from `k` on, does to the
/// state, to what is still to look at, and to the number of newlines ahead.
pub proof fn lemma_next_line(rules: Seq<BoundaryRule>, total: Seq<u8>, k: int, len: int)
    requires
        0 <= k,
        0 < len,
        k + len <= total.len(),
        k == 0 || total[k - 1] == NEWLINE,
        total[k + len - 1] == NEWLINE,
        forall|j: int| 0 <= j < len - 1 ==> total.subrange(k, total.len() as int)[j] != NEWLINE,
    ensures
        scan_at(rules, total, k + len) == step_line(
            rules,
            scan_at(rules, total, k),
            total.subrange(k, total.len() as int).subrange(0, len),
        ),
        total.subrange(k, total.len() as int).subrange(len, total.len() - k) == total.subrange(
            k + len,
            total.len() as int,
        ),
        crate::pending::marks::count_byte(total, NEWLINE, k, total.len() as int) == 1
            + crate::pending::marks::count_byte(total, NEWLINE, k + len, total.len() as int),
{
    let g = k + len - 1;
    let tail = total.subrange(k, total.len() as int);
    assert(forall|j: int| k <= j < g ==> total[j] == tail[j - k]);
    assert forall|j: int| k <= j < g implies total[j] != NEWLINE by {
        assert(tail[j - k] == total[j]);
    }
    lemma_scan_step(rules, total, k, g);
    lemma_count_split(total, NEWLINE, k, k, g);
    lemma_count_split(total, NEWLINE, k, g, total.len() as int);
    lemma_count_split(total, NEWLINE, g, g + 1, total.len() as int);
    assert(crate::pending::marks::count_byte(total, NEWLINE, g, g + 1) == 1) by {
        reveal_with_fuel(crate::pending::marks::count_byte, 2);
    }
    assert(tail.subrange(0, len) =~= total.subrange(k, g + 1));
    assert(tail.subrange(len, tail.len() as int) =~= total.subrange(g + 1, total.len() as int));
}

/// A block that the line has joined ends as the line does.
pub proof fn lemma_joined_ends(open: Seq<u8>, line: Seq<u8>)
    requires
        line.len() > 0,
    ensures
        (open + line).len() > 0,
        (open + line).last() == line.last(),
{
}

/// After a line that arrives while no block is open, the open block is
/// empty or ends as the line does.
pub proof fn lemma_opened_open(rules: Seq<BoundaryRule>, sc: Scan, line: Seq<u8>)
    requires
        line.len() > 0,
        sc.open.len() == 0 || sc.open.last() == line.last(),
    ensures
        opened(rules, sc, line).open.len() == 0 || opened(rules, sc, line).open.last()
            == line.last(),
{
    lemma_joined_ends(sc.open, line);
}

/// After a line that is not empty, the open block is empty or ends as the line does.
#[verifier::rlimit(50)]
pub proof fn lemma_step_open(rules: Seq<BoundaryRule>, sc: Scan, line: Seq<u8>)
    requires
        line.len() > 0,
        sc.open.len() == 0 || sc.open.last() == line.last(),
    ensures
        step_line(rules, sc, line).open.len() == 0 || step_line(rules, sc, line).open.last()
            == line.last(),
{
    reveal(step_line);
    lemma_joined_ends(sc.open, line);
    match sc.mode {
        ModeModel::Idle => {
            lemma_opened_open(rules, sc, line);
        },
        ModeModel::Table => {
            lemma_opened_open(rules, committed(sc, BlockKind::Table), line);
        },
        ModeModel::List { blanks } => {
            lemma_opened_open(rules, committed_without(sc, BlockKind::List, blanks), line);
        },
        ModeModel::Quote { blanks } => {
            lemma_opened_open(rules, committed_without(sc, BlockKind::BlockQuote, blanks), line);
        },
        _ => {},
    }
}

/// After complete lines, the open block is empty or ends in a newline.
pub proof fn lemma_open_ends_line(rules: Seq<BoundaryRule>, input: Seq<u8>, k: int)
    requires
        0 <= k <= input.len(),
        k == 0 || input[k - 1] == NEWLINE,
    ensures
        scan_at(rules, input, k).open.len() == 0 || scan_at(rules, input, k).open.last()
            == NEWLINE,
    decreases k,
{
    if k > 0 {
        lemma_line_start(input, k - 1);
        let p = line_start(input, k - 1);
        lemma_open_ends_line(rules, input, p);
        lemma_step_open(rules, scan_at(rules, input, p), input.subrange(p, k));
    }
}

/// What two steps add, one after the other.
pub proof fn lemma_added_chain(a: Scan, b: Scan, c: Scan)
    requires
        grows(a, b),
        grows(b, c),
    ensures
        grows(a, c),
        added(a, b) + added(b, c) == added(a, c),
{
    assert(c.blocks.subrange(0, a.blocks.len() as int) =~= c.blocks.subrange(
        0,
        b.blocks.len() as int,
    ).subrange(0, a.blocks.len() as int));
    assert(forall|i: int|
        a.blocks.len() <= i < b.blocks.len() ==> b.blocks[i] == c.blocks.subrange(
            0,
            b.blocks.len() as int,
        )[i]);
    assert(added(a, b) + added(b, c) =~= added(a, c));
}

impl MdStream {
    /// Puts every plugin back into its idle state.
    fn reset_plugins(&mut self)
        ensures
            final(self).rules() == old(self).rules(),
            final(self).plugins@.len() == old(self).plugins@.len(),
            forall|i: int|
                0 <= i < final(self).plugins@.len() ==> (#[trigger] final(self).plugins@[i]).state()
                    == final(self).rules()[i].idle,
            final(self).transformers == old(self).transformers,
            final(self).opts == old(self).opts,
            final(self).consumed == old(self).consumed,
            final(self).next_id == old(self).next_id,
            final(self).buffer == old(self).buffer,
            final(self).start == old(self).start,
            final(self).scanned == old(self).scanned,
            final(self).mode == old(self).mode,
    {
        let ghost rules = self.rules();
        let ghost pre = *self;
        let mut i: usize = 0;
        while i < self.plugins.len()
            invariant
                i <= self.plugins@.len(),
                self.plugins@.len() == pre.plugins@.len(),
                self.rules() == rules,
                rules.len() == self.plugins@.len(),
                forall|j: int|
                    0 <= j < i ==> (#[trigger] self.plugins@[j]).state() == rules[j].idle,
                self.transformers == pre.transformers,
                self.opts == pre.opts,
                self.consumed == pre.consumed,
                self.next_id == pre.next_id,
                self.buffer == pre.buffer,
                self.start == pre.start,
                self.scanned == pre.scanned,
                self.mode == pre.mode,
            decreases self.plugins@.len() - i,
        {
            self.plugins[i].reset();
            proof {
                assert(self.rules() =~= rules);
            }
            i += 1;
        }
    }

    /// The stream without any text: nothing open, nothing buffered.
    fn clear(&mut self)
        ensures
            final(self).wf(),
            final(self).consumed@ == Seq::<u8>::empty(),
            final(self).rules() == old(self).rules(),
            final(self).transformers == old(self).transformers,
            final(self).opts == old(self).opts,
            final(self).next_id == old(self).next_id,
    {
        self.reset_plugins();
        self.buffer = String::new();
        self.start = 0;
        self.scanned = 0;
        self.mode = Mode::Idle;
        self.consumed = Ghost(Seq::empty());
        proof {
            lemma_run_of_nothing(self.rules());
            assert(self.held() =~= start_scan(self.rules()).open + Seq::<u8>::empty());
        }
    }

    /// Drops the text that the stream holds and puts the plugins back into
    /// their idle state. The identifiers go on from where they are.
    pub fn reset(&mut self)
        requires
            old(self).wf(),
        ensures
            final(self).wf(),
            final(self).consumed() == Seq::<u8>::empty(),
            final(self).rules() == old(self).rules(),
            final(self).terminator() == old(self).terminator(),
            final(self).transformer_count() == old(self).transformer_count(),
            final(self).next_id() == old(self).next_id(),
    {
        let mut i: usize = 0;
        while i < self.transformers.len()
            invariant
                i <= self.transformers@.len(),
            decreases self.transformers@.len() - i,
        {
            self.transformers[i].reset();
            i += 1;
        }
        self.clear();
    }

    /// Ends the text: the unfinished last line counts as a line, and the
    /// block that is open then is committed. The stream is empty afterwards.
    #[verifier::rlimit(50)]
    pub fn finalize(&mut self) -> (update: Update)
        requires
            old(self).wf(),
            old(self).next_id() < u64::MAX - 3,
        ensures
            final(self).wf(),
            final(self).consumed() == Seq::<u8>::empty(),
            final(self).rules() == old(self).rules(),
            final(self).terminator() == old(self).terminator(),
            final(self).transformer_count() == old(self).transformer_count(),
            final(self).next_id() == old(self).next_id() + update.committed@.len(),
            all_blocks(old(self).rules(), old(self).consumed()).len() >= committed_blocks(
                old(self).rules(),
                old(self).consumed(),
            ).len(),
            all_blocks(old(self).rules(), old(self).consumed()).subrange(
                0,
                committed_blocks(old(self).rules(), old(self).consumed()).len() as int,
            ) == committed_blocks(old(self).rules(), old(self).consumed()),
            emitted(
                update.committed@,
                old(self).next_id() as int,
                all_blocks(old(self).rules(), old(self).consumed()).subrange(
                    committed_blocks(old(self).rules(), old(self).consumed()).len() as int,
                    all_blocks(old(self).rules(), old(self).consumed()).len() as int,
                ),
            ),
            update.pending is None,
            update.invalidated@.len() == 0,
    {
        let ghost rules = self.rules();
        let ghost input = self.consumed@;
        let ghost start = run(rules, input);
        let ghost tail = rest(input);
        let ghost id0 = self.next_id as int;
        let mut committed: Vec<Block> = Vec::new();
        proof {
            lemma_added_none(start, start, Seq::empty());
            assert(added(start, start) =~= Seq::<BlockText>::empty());
        }
        let blen = self.buffer.as_str().as_bytes().len();
        proof {
            self.lemma_held();
        }
        let held_len = blen - self.start;
        let ghost mid = if tail.len() > 0 {
            step_line(rules, start, tail)
        } else {
            start
        };
        if self.scanned < held_len {
            proof {
                assert(tail.subrange(0, tail.len() as int) =~= tail);
            }
            self.feed(
                held_len,
                &mut committed,
                Ghost(start),
                Ghost(tail),
                Ghost(id0),
                Ghost(Seq::empty()),
            );
            proof {
                assert(Seq::<BlockText>::empty() + added(start, mid) =~= added(start, mid));
            }
        }
        let ghost rest2 = Seq::<u8>::empty();
        proof {
            assert(tail.subrange(tail.len() as int, tail.len() as int) =~= rest2);
            assert(self.holds(mid, rest2));
        }
        let ghost base = added(start, mid);
        match self.mode {
            Mode::Idle => {
                proof {
                    lemma_added_none(mid, closed(mid), base);
                }
            },
            Mode::List { blanks } => {
                self.commit(
                    BlockKind::List,
                    blanks,
                    &mut committed,
                    Ghost(mid),
                    Ghost(rest2),
                    Ghost(id0),
                    Ghost(base),
                );
                proof {
                    lemma_added_one(
                        mid,
                        closed(mid),
                        base,
                        BlockText {
                            kind: BlockKind::List,
                            raw: mid.open.subrange(0, mid.open.len() - blanks),
                        },
                    );
                }
            },
            Mode::Quote { blanks } => {
                self.commit(
                    BlockKind::BlockQuote,
                    blanks,
                    &mut committed,
                    Ghost(mid),
                    Ghost(rest2),
                    Ghost(id0),
                    Ghost(base),
                );
                proof {
                    lemma_added_one(
                        mid,
                        closed(mid),
                        base,
                        BlockText {
                            kind: BlockKind::BlockQuote,
                            raw: mid.open.subrange(0, mid.open.len() - blanks),
                        },
                    );
                }
            },
            m => {
                let kind = match m {
                    Mode::Custom { .. } => BlockKind::CustomBoundary,
                    Mode::Fence { .. } => BlockKind::CodeFence,
                    Mode::Math => BlockKind::MathBlock,
                    Mode::Html => BlockKind::HtmlBlock,
                    Mode::Table => BlockKind::Table,
                    Mode::Footnote => BlockKind::FootnoteDefinition,
                    _ => BlockKind::Paragraph,
                };
                self.commit(
                    kind,
                    0,
                    &mut committed,
                    Ghost(mid),
                    Ghost(rest2),
                    Ghost(id0),
                    Ghost(base),
                );
                proof {
                    lemma_committed_whole(mid, kind);
                    lemma_added_one(mid, closed(mid), base, BlockText { kind, raw: mid.open });
                }
            },
        }
        proof {
            lemma_added_chain(start, mid, closed(mid));
            assert(closed(mid) == finished(rules, input));
        }
        self.clear();
        Update { committed, pending: None, invalidated: Vec::new() }
    }

    /// Adds a boundary plugin, which is asked after those that the stream
    /// has already. The stream must not have taken in any text yet.
    pub fn push_boundary_plugin<P: BoundaryPlugin + 'static>(&mut self, plugin: P)
        requires
            old(self).wf(),
            old(self).consumed().len() == 0,
        ensures
            final(self).wf(),
            final(self).consumed() == old(self).consumed(),
            final(self).rules().len() == old(self).rules().len() + 1,
            final(self).rules().subrange(0, old(self).rules().len() as int) == old(self).rules(),
            final(self).terminator() == old(self).terminator(),
            final(self).transformer_count() == old(self).transformer_count(),
            final(self).next_id() == old(self).next_id(),
    {
        let ghost rules = self.rules();
        let ghost plugins = self.plugins@;
        let boxed: Box<dyn BoundaryPlugin> = Box::new(plugin);
        self.plugins.push(boxed);
        proof {
            lemma_pushed(plugins, boxed);
            assert(self.rules().subrange(0, rules.len() as int) =~= rules);
            assert(self.consumed@ =~= Seq::<u8>::empty());
        }
        self.clear();
    }

    /// The stream with one more boundary plugin.
    pub fn with_boundary_plugin<P: BoundaryPlugin + 'static>(self, plugin: P) -> (r: Self)
        requires
            self.wf(),
            self.consumed().len() == 0,
        ensures
            r.wf(),
            r.consumed() == self.consumed(),
            r.rules().len() == self.rules().len() + 1,
            r.rules().subrange(0, self.rules().len() as int) == self.rules(),
            r.terminator() == self.terminator(),
            r.transformer_count() == self.transformer_count(),
            r.next_id() == self.next_id(),
    {
        let mut r = self;
        r.push_boundary_plugin(plugin);
        r
    }

    /// Adds a pending transformer, which is asked after those that the
    /// stream has already.
    pub fn push_pending_transformer<T: PendingTransformer + 'static>(&mut self, transformer: T)
        requires
            old(self).wf(),
        ensures
            final(self).wf(),
            final(self).consumed() == old(self).consumed(),
            final(self).rules() == old(self).rules(),
            final(self).terminator() == old(self).terminator(),
            final(self).transformer_count() == old(self).transformer_count() + 1,
            final(self).next_id() == old(self).next_id(),
    {
        let ghost rules = self.rules();
        let ghost transformers = self.transformers@;
        let boxed: Box<dyn PendingTransformer> = Box::new(transformer);
        self.transformers.push(boxed);
        proof {
            lemma_pushed(transformers, boxed);
            assert(self.rules() =~= rules);
        }
    }
}

/// A sequence of boxes with one more at its end.
pub proof fn lemma_pushed<A: ?Sized>(w: Seq<Box<A>>, b: Box<A>)
    ensures
        w.push(b).len() == w.len() + 1,
        forall|i: int| 0 <= i < w.len() ==> w.push(b)[i] == w[i],
{
}

impl MdStream {
    /// The identifier that the next block gets.
    pub fn next_block_id(&self) -> (r: BlockId)
        ensures
            r.0 == self.next_id(),
    {
        BlockId(self.next_id)
    }

    /// The options that the stream was made with.
    pub fn options(&self) -> (r: &Options)
        ensures
            r.terminator@ == self.terminator(),
    {
        &self.opts
    }

    /// Whether the stream has identifiers enough to take in `bytes` more bytes.
    pub fn has_room_for(&self, bytes: usize) -> (r: bool)
        ensures
            r == (self.next_id() + 2 * bytes + 2 <= u64::MAX),
    {
        let left: u64 = u64::MAX - self.next_id;
        left >= 2 && (left - 2) / 2 >= bytes as u64
    }
}

} // verus!
