//! What holds of the block splitter on every input.
use vstd::prelude::*;
use crate::boundary::BoundaryRule;
use crate::bytes::{CARRIAGE_RETURN, NEWLINE};
use crate::pending::marks::{lemma_line_start, line_start};
use crate::stream::model::{
    BlockText, ModeModel, Scan, all_blocks, closed, committed_blocks, finished, lines_end,
    pending_block, rest, run, scan_at, start_scan, step_line,
};
use crate::stream::{added, emitted, grows, lemma_added_chain, lemma_scan_at_prefix};
use crate::types::Block;

verus! {

/// The bytes of the blocks one after the other.
pub open spec fn raws(blocks: Seq<BlockText>) -> Seq<u8>
    decreases blocks.len(),
{
    if blocks.len() == 0 {
        Seq::empty()
    } else {
        raws(blocks.drop_last()) + blocks.last().raw
    }
}

/// The bytes of the pending block, if there is one.
pub open spec fn pending_raw(rules: Seq<BoundaryRule>, input: Seq<u8>) -> Seq<u8> {
    match pending_block(rules, input) {
        Some(text) => text.raw,
        None => Seq::empty(),
    }
}

/// How many bytes of blank lines between blocks the splitter has left out of `input`.
pub open spec fn dropped_bytes(rules: Seq<BoundaryRule>, input: Seq<u8>) -> nat {
    run(rules, input).dropped
}

/// The blocks that a stream hands out which has consumed `before` and is then
/// given the chunks one by one and finalized.
pub open spec fn fed(rules: Seq<BoundaryRule>, before: Seq<u8>, chunks: Seq<Seq<u8>>) -> Seq<
    BlockText,
>
    decreases chunks.len(),
{
    if chunks.len() == 0 {
        added(run(rules, before), finished(rules, before))
    } else {
        added(run(rules, before), run(rules, before + chunks[0])) + fed(
            rules,
            before + chunks[0],
            chunks.drop_first(),
        )
    }
}

/// The chunks one after the other.
pub open spec fn joined(chunks: Seq<Seq<u8>>) -> Seq<u8>
    decreases chunks.len(),
{
    if chunks.len() == 0 {
        Seq::empty()
    } else {
        chunks[0] + joined(chunks.drop_first())
    }
}

/// A step commits blocks and takes none back.
#[verifier::rlimit(50)]
pub proof fn lemma_step_grows(rules: Seq<BoundaryRule>, sc: Scan, line: Seq<u8>)
    ensures
        grows(sc, step_line(rules, sc, line)),
{
    reveal(step_line);
    let after = step_line(rules, sc, line);
    assert(after.blocks.subrange(0, sc.blocks.len() as int) =~= sc.blocks);
}

/// More lines commit more blocks and take none back.
pub proof fn lemma_scan_grows(rules: Seq<BoundaryRule>, input: Seq<u8>, j: int, k: int)
    requires
        0 <= j <= k <= input.len(),
        j == 0 || input[j - 1] == NEWLINE,
        k == 0 || input[k - 1] == NEWLINE,
    ensures
        grows(scan_at(rules, input, j), scan_at(rules, input, k)),
    decreases k,
{
    let a = scan_at(rules, input, j);
    if j == k {
        assert(a.blocks.subrange(0, a.blocks.len() as int) =~= a.blocks);
    } else {
        lemma_line_start(input, k - 1);
        let p = line_start(input, k - 1);
        if j > p {
            assert(input[j - 1] == NEWLINE);
            assert(false);
        }
        lemma_scan_grows(rules, input, j, p);
        lemma_step_grows(rules, scan_at(rules, input, p), input.subrange(p, k));
        lemma_added_chain(a, scan_at(rules, input, p), scan_at(rules, input, k));
    }
}

/// More input commits more blocks and takes none back.
pub proof fn lemma_run_grows(rules: Seq<BoundaryRule>, a: Seq<u8>, b: Seq<u8>)
    ensures
        grows(run(rules, a), run(rules, a + b)),
{
    let total = a + b;
    lemma_line_start(a, a.len() as int);
    lemma_line_start(total, total.len() as int);
    let j = lines_end(a);
    let k = lines_end(total);
    lemma_scan_at_prefix(rules, a, b, j);
    assert(j > 0 ==> total[j - 1] == a[j - 1]);
    if k < j {
        assert(total[j - 1] == NEWLINE);
        assert(false);
    }
    lemma_scan_grows(rules, total, j, k);
}

/// The end of the input commits blocks and takes none back.
pub proof fn lemma_finish_grows(rules: Seq<BoundaryRule>, input: Seq<u8>)
    ensures
        grows(run(rules, input), finished(rules, input)),
{
    let sc = run(rules, input);
    let mid = if rest(input).len() > 0 {
        step_line(rules, sc, rest(input))
    } else {
        sc
    };
    lemma_step_grows(rules, sc, rest(input));
    assert(sc.blocks.subrange(0, sc.blocks.len() as int) =~= sc.blocks);
    assert(closed(mid).blocks.subrange(0, mid.blocks.len() as int) =~= mid.blocks);
    lemma_added_chain(sc, mid, closed(mid));
}

/// The state that an input leads to is the state that it leads to when the
/// last bytes come later.
pub proof fn lemma_finished_of_all(rules: Seq<BoundaryRule>, before: Seq<u8>)
    ensures
        run(rules, before).blocks + added(run(rules, before), finished(rules, before))
            == all_blocks(rules, before),
{
    lemma_finish_grows(rules, before);
    assert(run(rules, before).blocks + added(run(rules, before), finished(rules, before))
        =~= all_blocks(rules, before));
}

/// Chunking invariance, from any point of a stream: the blocks committed so
/// far, and then those that come out while the chunks are given and the
/// stream is finalized, are the blocks of the whole text.
pub proof fn lemma_fed_from(rules: Seq<BoundaryRule>, before: Seq<u8>, chunks: Seq<Seq<u8>>)
    ensures
        committed_blocks(rules, before) + fed(rules, before, chunks) == all_blocks(
            rules,
            before + joined(chunks),
        ),
    decreases chunks.len(),
{
    if chunks.len() == 0 {
        assert(before + joined(chunks) =~= before);
        lemma_finished_of_all(rules, before);
    } else {
        let next = before + chunks[0];
        lemma_fed_from(rules, next, chunks.drop_first());
        lemma_run_grows(rules, before, chunks[0]);
        assert(next + joined(chunks.drop_first()) =~= before + joined(chunks));
        assert(run(rules, before).blocks + added(run(rules, before), run(rules, next))
            =~= run(rules, next).blocks);
        assert(committed_blocks(rules, before) + fed(rules, before, chunks) =~= committed_blocks(
            rules,
            next,
        ) + fed(rules, next, chunks.drop_first()));
    }
}

/// Chunking invariance: however a text is cut into chunks, the stream hands
/// out the same blocks, those of the whole text.
pub proof fn lemma_chunking_invariance(rules: Seq<BoundaryRule>, chunks: Seq<Seq<u8>>)
    ensures
        fed(rules, Seq::empty(), chunks) == all_blocks(rules, joined(chunks)),
{
    lemma_fed_from(rules, Seq::empty(), chunks);
    crate::stream::lemma_run_of_nothing(rules);
    assert(Seq::<u8>::empty() + joined(chunks) =~= joined(chunks));
    assert(committed_blocks(rules, Seq::empty()) + fed(rules, Seq::empty(), chunks) =~= fed(
        rules,
        Seq::empty(),
        chunks,
    ));
}

/// Two ways of cutting the same text give the same blocks.
pub proof fn lemma_same_text_same_blocks(
    rules: Seq<BoundaryRule>,
    first: Seq<Seq<u8>>,
    second: Seq<Seq<u8>>,
)
    requires
        joined(first) == joined(second),
    ensures
        fed(rules, Seq::empty(), first) == fed(rules, Seq::empty(), second),
{
    lemma_chunking_invariance(rules, first);
    lemma_chunking_invariance(rules, second);
}

/// The bytes with every carriage return that stands before a newline taken out.
pub open spec fn crlf_normalized(s: Seq<u8>) -> Seq<u8>
    decreases s.len(),
{
    if s.len() == 0 {
        s
    } else if s.len() >= 2 && s[0] == CARRIAGE_RETURN && s[1] == NEWLINE {
        crlf_normalized(s.drop_first())
    } else {
        seq![s[0]] + crlf_normalized(s.drop_first())
    }
}

/// The blocks by kind and normalized bytes.
pub open spec fn normalized_blocks(blocks: Seq<BlockText>) -> Seq<BlockText> {
    Seq::new(
        blocks.len(),
        |i: int| BlockText { kind: blocks[i].kind, raw: crlf_normalized(blocks[i].raw) },
    )
}

/// A chunk boundary between a carriage return and its newline changes no
/// block: the text cut there gives the blocks of the text in one piece, by
/// kind and bytes, and so also by kind and normalized bytes.
pub proof fn lemma_crlf_may_be_split(rules: Seq<BoundaryRule>, a: Seq<u8>, b: Seq<u8>)
    ensures
        fed(rules, Seq::empty(), seq![a + seq![CARRIAGE_RETURN], seq![NEWLINE] + b]) == fed(
            rules,
            Seq::empty(),
            seq![a + seq![CARRIAGE_RETURN, NEWLINE] + b],
        ),
        normalized_blocks(
            fed(rules, Seq::empty(), seq![a + seq![CARRIAGE_RETURN], seq![NEWLINE] + b]),
        ) == normalized_blocks(
            fed(rules, Seq::empty(), seq![a + seq![CARRIAGE_RETURN, NEWLINE] + b]),
        ),
{
    let first = seq![a + seq![CARRIAGE_RETURN], seq![NEWLINE] + b];
    let second = seq![a + seq![CARRIAGE_RETURN, NEWLINE] + b];
    assert(joined(first) =~= a + seq![CARRIAGE_RETURN, NEWLINE] + b) by {
        reveal_with_fuel(joined, 3);
        assert(first.drop_first() =~= seq![seq![NEWLINE] + b]);
        assert(first.drop_first().drop_first() =~= Seq::<Seq<u8>>::empty());
    }
    assert(joined(second) =~= a + seq![CARRIAGE_RETURN, NEWLINE] + b) by {
        reveal_with_fuel(joined, 2);
        assert(second.drop_first() =~= Seq::<Seq<u8>>::empty());
    }
    lemma_same_text_same_blocks(rules, first, second);
}

/// The identifiers of committed blocks rise: blocks handed out together are
/// numbered one after the other from the first identifier on.
pub proof fn lemma_ids_rise(out: Seq<Block>, first_id: int, blocks: Seq<BlockText>)
    requires
        emitted(out, first_id, blocks),
        0 <= first_id,
        first_id + out.len() <= u64::MAX,
    ensures
        forall|i: int| 0 <= i < out.len() ==> (#[trigger] out[i]).id.0 == first_id + i,
        forall|i: int, j: int| 0 <= i < j < out.len() ==> out[i].id.0 < out[j].id.0,
{
    assert forall|i: int| 0 <= i < out.len() implies (#[trigger] out[i]).id.0 == first_id + i by {
        assert(out[i]@.id == (first_id + i) as u64);
    }
}

/// What the state after the lines up to `k` accounts for: every byte up to
/// `k` is in a committed block, in the open block, or among the blank lines
/// left out; and where none was left out, the blocks and the open block are
/// the input up to `k`.
pub open spec fn accounted(sc: Scan, input: Seq<u8>, k: int) -> bool {
    &&& raws(sc.blocks).len() + sc.open.len() + sc.dropped == k
    &&& sc.dropped == 0 ==> raws(sc.blocks) + sc.open == input.subrange(0, k)
    &&& mode_fits(sc.mode, sc.open)
}

/// The mode asks nothing of the open block that `open` does not meet.
pub open spec fn mode_fits(mode: ModeModel, open: Seq<u8>) -> bool {
    match mode {
        ModeModel::Idle => open.len() == 0,
        ModeModel::List { blanks } => 0 <= blanks <= open.len(),
        ModeModel::Quote { blanks } => 0 <= blanks <= open.len(),
        _ => true,
    }
}

/// A line that joins the open block is accounted for.
pub proof fn lemma_extend_accounts(sc: Scan, after: Scan, input: Seq<u8>, p: int, k: int)
    requires
        0 <= p < k <= input.len(),
        accounted(sc, input, p),
        after.open == sc.open + input.subrange(p, k),
        after.blocks == sc.blocks,
        after.dropped == sc.dropped,
        mode_fits(after.mode, after.open),
    ensures
        accounted(after, input, k),
{
    let line = input.subrange(p, k);
    if sc.dropped == 0 {
        assert(input.subrange(0, p) + line =~= input.subrange(0, k));
        assert(raws(sc.blocks) + (sc.open + line) =~= raws(sc.blocks) + sc.open + line);
    }
}

/// A block that is committed without `blanks` bytes at its end is accounted
/// for, and so are those bytes.
pub proof fn lemma_commit_accounts(sc: Scan, after: Scan, input: Seq<u8>, k: int, blanks: int)
    requires
        0 <= k <= input.len(),
        0 <= blanks <= sc.open.len(),
        raws(sc.blocks).len() + sc.open.len() + sc.dropped == k,
        sc.dropped == 0 ==> raws(sc.blocks) + sc.open == input.subrange(0, k),
        after.mode is Idle,
        after.open.len() == 0,
        after.blocks.len() == sc.blocks.len() + 1,
        after.blocks.drop_last() == sc.blocks,
        after.blocks.last().raw == sc.open.subrange(0, sc.open.len() - blanks),
        after.dropped == sc.dropped + blanks,
    ensures
        accounted(after, input, k),
{
    if after.dropped == 0 {
        assert(sc.open.subrange(0, sc.open.len() as int) =~= sc.open);
        assert(raws(after.blocks) + after.open =~= raws(sc.blocks) + sc.open);
    }
}

/// A line that arrives while no block is open is accounted for.
#[verifier::rlimit(50)]
pub proof fn lemma_opened_accounts(
    rules: Seq<BoundaryRule>,
    sc: Scan,
    input: Seq<u8>,
    p: int,
    k: int,
)
    requires
        0 <= p < k <= input.len(),
        accounted(sc, input, p),
        sc.open.len() == 0,
    ensures
        accounted(crate::stream::model::opened(rules, sc, input.subrange(p, k)), input, k),
{
    let line = input.subrange(p, k);
    let after = crate::stream::model::opened(rules, sc, line);
    if after.blocks.len() == sc.blocks.len() + 1 {
        let mid = Scan { mode: ModeModel::Paragraph, open: sc.open + line, ..sc };
        lemma_extend_accounts(sc, mid, input, p, k);
        assert(after.blocks.drop_last() =~= sc.blocks);
        assert(mid.open.subrange(0, mid.open.len() as int) =~= mid.open);
        lemma_commit_accounts(mid, after, input, k, 0);
    } else if after.dropped == sc.dropped {
        lemma_extend_accounts(sc, after, input, p, k);
    }
}

/// A line that joins the open block and may close it is accounted for.
pub proof fn lemma_continued_accounts(
    sc: Scan,
    input: Seq<u8>,
    p: int,
    k: int,
    closes: bool,
    kind: crate::types::BlockKind,
)
    requires
        0 <= p < k <= input.len(),
        accounted(sc, input, p),
        !(sc.mode is Idle),
        !(sc.mode is List),
        !(sc.mode is Quote),
    ensures
        accounted(
            crate::stream::model::continued(sc, input.subrange(p, k), closes, kind),
            input,
            k,
        ),
{
    let line = input.subrange(p, k);
    let mid = crate::stream::model::extended(sc, line);
    let after = crate::stream::model::continued(sc, line, closes, kind);
    lemma_extend_accounts(sc, mid, input, p, k);
    if closes {
        assert(after.blocks.drop_last() =~= sc.blocks);
        assert(mid.open.subrange(0, mid.open.len() as int) =~= mid.open);
        lemma_commit_accounts(mid, after, input, k, 0);
    }
}

/// A line that ends the open block and opens the next is accounted for.
pub proof fn lemma_ended_accounts(
    rules: Seq<BoundaryRule>,
    sc: Scan,
    input: Seq<u8>,
    p: int,
    k: int,
    kind: crate::types::BlockKind,
    blanks: int,
)
    requires
        0 <= p < k <= input.len(),
        accounted(sc, input, p),
        0 <= blanks <= sc.open.len(),
    ensures
        accounted(
            crate::stream::model::opened(
                rules,
                crate::stream::model::committed_without(sc, kind, blanks),
                input.subrange(p, k),
            ),
            input,
            k,
        ),
{
    let mid = crate::stream::model::committed_without(sc, kind, blanks);
    assert(mid.blocks.drop_last() =~= sc.blocks);
    lemma_commit_accounts(sc, mid, input, p, blanks);
    lemma_opened_accounts(rules, mid, input, p, k);
}

/// A step keeps account of every byte.
#[verifier::rlimit(50)]
pub proof fn lemma_step_accounts(
    rules: Seq<BoundaryRule>,
    sc: Scan,
    input: Seq<u8>,
    p: int,
    k: int,
)
    requires
        0 <= p < k <= input.len(),
        accounted(sc, input, p),
    ensures
        accounted(step_line(rules, sc, input.subrange(p, k)), input, k),
{
    reveal(step_line);
    let line = input.subrange(p, k);
    let c = crate::syntax::line_content(line);
    let after = step_line(rules, sc, line);
    match sc.mode {
        ModeModel::Idle => {
            lemma_opened_accounts(rules, sc, input, p, k);
        },
        ModeModel::Custom { plugin } => {
            if 0 <= plugin < rules.len() && plugin < sc.states.len() {
                let r = (rules[plugin].step)(sc.states[plugin], c);
                let mid = Scan {
                    open: sc.open + line,
                    states: sc.states.update(plugin, r.0),
                    ..sc
                };
                lemma_extend_accounts(sc, mid, input, p, k);
                if r.1 {
                    assert(after.blocks.drop_last() =~= sc.blocks);
                    assert(mid.open.subrange(0, mid.open.len() as int) =~= mid.open);
                    lemma_commit_accounts(mid, after, input, k, 0);
                }
            } else {
                lemma_extend_accounts(sc, after, input, p, k);
            }
        },
        ModeModel::Fence { ch, len } => {
            lemma_continued_accounts(
                sc,
                input,
                p,
                k,
                crate::syntax::closes_fence(c, ch, len),
                crate::types::BlockKind::CodeFence,
            );
        },
        ModeModel::Math => {
            lemma_continued_accounts(
                sc,
                input,
                p,
                k,
                crate::syntax::math_delimiter(c),
                crate::types::BlockKind::MathBlock,
            );
        },
        ModeModel::Html => {
            lemma_continued_accounts(
                sc,
                input,
                p,
                k,
                crate::syntax::blank(c),
                crate::types::BlockKind::HtmlBlock,
            );
        },
        ModeModel::Paragraph => {
            lemma_continued_accounts(
                sc,
                input,
                p,
                k,
                crate::syntax::blank(c),
                crate::types::BlockKind::Paragraph,
            );
        },
        ModeModel::Footnote => {
            lemma_continued_accounts(
                sc,
                input,
                p,
                k,
                crate::syntax::blank(c),
                crate::types::BlockKind::FootnoteDefinition,
            );
        },
        ModeModel::TableHead => {
            if crate::syntax::delimiter_row(c) {
                lemma_extend_accounts(sc, after, input, p, k);
            } else {
                lemma_continued_accounts(
                    Scan { mode: ModeModel::Paragraph, ..sc },
                    input,
                    p,
                    k,
                    crate::syntax::blank(c),
                    crate::types::BlockKind::Paragraph,
                );
            }
        },
        ModeModel::Table => {
            if crate::syntax::blank(c) {
                lemma_continued_accounts(sc, input, p, k, true, crate::types::BlockKind::Table);
            } else if crate::syntax::table_row(c) {
                lemma_extend_accounts(sc, after, input, p, k);
            } else {
                crate::stream::lemma_committed_whole(sc, crate::types::BlockKind::Table);
                lemma_ended_accounts(rules, sc, input, p, k, crate::types::BlockKind::Table, 0);
            }
        },
        ModeModel::List { blanks } => {
            if crate::syntax::blank(c) || crate::syntax::list_marker(c) {
                lemma_extend_accounts(sc, after, input, p, k);
            } else {
                lemma_ended_accounts(
                    rules,
                    sc,
                    input,
                    p,
                    k,
                    crate::types::BlockKind::List,
                    blanks,
                );
            }
        },
        ModeModel::Quote { blanks } => {
            if crate::syntax::blank(c) || crate::syntax::quote_marker(c) {
                lemma_extend_accounts(sc, after, input, p, k);
            } else {
                lemma_ended_accounts(
                    rules,
                    sc,
                    input,
                    p,
                    k,
                    crate::types::BlockKind::BlockQuote,
                    blanks,
                );
            }
        },
    }
}

/// The splitter keeps account of every byte.
pub proof fn lemma_scan_accounts(rules: Seq<BoundaryRule>, input: Seq<u8>, k: int)
    requires
        0 <= k <= input.len(),
        k == 0 || input[k - 1] == NEWLINE,
    ensures
        accounted(scan_at(rules, input, k), input, k),
    decreases k,
{
    if k > 0 {
        lemma_line_start(input, k - 1);
        let p = line_start(input, k - 1);
        lemma_scan_accounts(rules, input, p);
        lemma_step_accounts(rules, scan_at(rules, input, p), input, p, k);
    } else {
        assert(raws(start_scan(rules).blocks) + start_scan(rules).open =~= input.subrange(0, 0));
    }
}

/// Concatenation: the committed blocks and the pending block, one after the
/// other, are the input, where the splitter has left out no blank line
/// between blocks. In every case they and the bytes left out add up to the
/// length of the input.
pub proof fn lemma_concatenation(rules: Seq<BoundaryRule>, input: Seq<u8>)
    ensures
        raws(committed_blocks(rules, input)).len() + pending_raw(rules, input).len()
            + dropped_bytes(rules, input) == input.len(),
        dropped_bytes(rules, input) == 0 ==> raws(committed_blocks(rules, input)) + pending_raw(
            rules,
            input,
        ) == input,
{
    lemma_line_start(input, input.len() as int);
    let k = lines_end(input);
    lemma_scan_accounts(rules, input, k);
    let sc = run(rules, input);
    assert(pending_raw(rules, input) =~= sc.open + rest(input));
    if sc.dropped == 0 {
        assert(raws(sc.blocks) + (sc.open + rest(input)) =~= input.subrange(0, k) + rest(input));
        assert(input.subrange(0, k) + rest(input) =~= input);
    }
}

/// The block is not empty and ends in a newline.
pub open spec fn ends_line(raw: Seq<u8>) -> bool {
    raw.len() > 0 && raw.last() == NEWLINE
}

/// What holds of the state after complete lines: every committed block ends
/// in a newline; a block is open exactly when the mode says so, and then it
/// ends in a newline; and the blank lines that a list or block quote holds
/// back follow a line of it.
pub open spec fn lined(sc: Scan) -> bool {
    &&& forall|i: int| 0 <= i < sc.blocks.len() ==> ends_line(#[trigger] sc.blocks[i].raw)
    &&& match sc.mode {
        ModeModel::Idle => sc.open.len() == 0,
        ModeModel::List { blanks } => ends_line(sc.open) && 0 <= blanks < sc.open.len()
            && sc.open[sc.open.len() - blanks - 1] == NEWLINE,
        ModeModel::Quote { blanks } => ends_line(sc.open) && 0 <= blanks < sc.open.len()
            && sc.open[sc.open.len() - blanks - 1] == NEWLINE,
        _ => ends_line(sc.open),
    }
}

/// A line that arrives while no block is open keeps the state lined.
#[verifier::rlimit(50)]
pub proof fn lemma_opened_lined(rules: Seq<BoundaryRule>, sc: Scan, line: Seq<u8>)
    requires
        ends_line(line),
        sc.mode is Idle,
        lined(sc),
    ensures
        lined(crate::stream::model::opened(rules, sc, line)),
{
    assert(sc.open + line =~= line);
}

/// A complete line keeps the state lined.
#[verifier::rlimit(50)]
pub proof fn lemma_step_lined(rules: Seq<BoundaryRule>, sc: Scan, line: Seq<u8>)
    requires
        ends_line(line),
        lined(sc),
    ensures
        lined(step_line(rules, sc, line)),
{
    reveal(step_line);
    assert((sc.open + line).last() == line.last());
    match sc.mode {
        ModeModel::Idle => {
            lemma_opened_lined(rules, sc, line);
        },
        ModeModel::Table => {
            lemma_opened_lined(
                rules,
                crate::stream::model::committed(sc, crate::types::BlockKind::Table),
                line,
            );
        },
        ModeModel::List { blanks } => {
            let part = sc.open.subrange(0, sc.open.len() - blanks);
            assert(part.last() == sc.open[sc.open.len() - blanks - 1]);
            lemma_opened_lined(
                rules,
                crate::stream::model::committed_without(sc, crate::types::BlockKind::List, blanks),
                line,
            );
        },
        ModeModel::Quote { blanks } => {
            let part = sc.open.subrange(0, sc.open.len() - blanks);
            assert(part.last() == sc.open[sc.open.len() - blanks - 1]);
            lemma_opened_lined(
                rules,
                crate::stream::model::committed_without(
                    sc,
                    crate::types::BlockKind::BlockQuote,
                    blanks,
                ),
                line,
            );
        },
        _ => {},
    }
}

/// The state after complete lines is lined.
pub proof fn lemma_scan_lined(rules: Seq<BoundaryRule>, input: Seq<u8>, k: int)
    requires
        0 <= k <= input.len(),
        k == 0 || input[k - 1] == NEWLINE,
    ensures
        lined(scan_at(rules, input, k)),
    decreases k,
{
    if k > 0 {
        lemma_line_start(input, k - 1);
        let p = line_start(input, k - 1);
        lemma_scan_lined(rules, input, p);
        lemma_step_lined(rules, scan_at(rules, input, p), input.subrange(p, k));
    }
}

/// A block that a chunk has committed ends at a line end: it is not empty
/// and its last byte is a newline. Only the end of the text can commit a
/// block that ends otherwise.
pub proof fn lemma_committed_blocks_end_lines(rules: Seq<BoundaryRule>, input: Seq<u8>)
    ensures
        forall|i: int|
            0 <= i < committed_blocks(rules, input).len() ==> ends_line(
                #[trigger] committed_blocks(rules, input)[i].raw,
            ),
{
    lemma_line_start(input, input.len() as int);
    lemma_scan_lined(rules, input, lines_end(input));
}

} // verus!
