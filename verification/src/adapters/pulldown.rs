//! An adapter that parses blocks with `pulldown-cmark` and keeps the events
//! of each committed block.
use std::collections::HashMap;
use vstd::prelude::*;
use vstd::string::*;
use vstd::utf8::*;
use crate::bytes::{
    CARET, CARRIAGE_RETURN, COLON, LBRACKET, NEWLINE, RBRACKET, SPACE, TAB, byte_in_range,
    bytes_before, comes_before, equal_bytes, find_byte_from, first_byte_from, has_byte_in_range,
    indent, leading_indent, lemma_find_byte_from, lemma_order_total, lemma_order_transitive,
};
use crate::text::{owned, push_str, str_range};
use crate::types::{Block, BlockId, Update};
use crate::unicode::{ascii_lower, to_ascii_lower};

verus! {

/// An event of `pulldown-cmark`. Nothing is known of what it holds.
#[verifier::external_type_specification]
#[verifier::external_body]
pub struct ExEvent<'a>(pulldown_cmark::Event<'a>);

/// The events that `pulldown_cmark::Parser::new_ext` yields for a text, with
/// the options whose bits are `option_bits`.
pub uninterp spec fn markdown_events(text: Seq<u8>, option_bits: u32) -> Seq<
    pulldown_cmark::Event<'static>,
>;

/// Parses the text with `pulldown_cmark::Parser::new_ext`, under the options
/// that `pulldown_cmark::Options::from_bits_truncate` makes of `option_bits`,
/// and collects the events, each made to own its text with
/// `pulldown_cmark::Event::into_static`. Nothing is proved of the parser: the
/// contract only gives its events the name `markdown_events`, which says that
/// they depend on the text and the option bits alone.
#[verifier::external_body]
pub(crate) fn parse_events_static(input: &str, option_bits: u32) -> (r: Vec<
    pulldown_cmark::Event<'static>,
>)
    ensures
        r@ == markdown_events(input.spec_bytes(), option_bits),
{
    let options = pulldown_cmark::Options::from_bits_truncate(option_bits);
    pulldown_cmark::Parser::new_ext(input, options).map(|e| e.into_static()).collect()
}

/// A link reference definition: its label, in lower case, and its line.
#[derive(Debug, Clone)]
pub struct ReferenceDefinition {
    pub label: Vec<u8>,
    pub line: String,
}

/// The mathematical value of a [`ReferenceDefinition`].
pub struct DefinitionModel {
    pub label: Seq<u8>,
    pub line: Seq<u8>,
}

impl View for ReferenceDefinition {
    type V = DefinitionModel;

    open spec fn view(&self) -> DefinitionModel {
        DefinitionModel { label: self.label@, line: encode_utf8(self.line@) }
    }
}

/// A space, a tab or a carriage return.
pub open spec fn line_padding(b: u8) -> bool {
    b == SPACE || b == TAB || b == CARRIAGE_RETURN
}

/// The end of the text `s[lo .. k]` once the spaces, tabs and carriage
/// returns at its end are cut off.
pub open spec fn padding_trimmed_end(s: Seq<u8>, lo: int, k: int) -> int
    decreases k - lo,
{
    if lo < 0 || k <= lo || k > s.len() {
        lo
    } else if line_padding(s[k - 1]) {
        padding_trimmed_end(s, lo, k - 1)
    } else {
        k
    }
}

/// The link reference definition that a line holds, if it holds one: after
/// at most three spaces `[`, a label that is not empty, holds no `[` and does
/// not start with `^`, then `]:` and something more than spaces, tabs and
/// carriage returns. The label counts in lower case; the line counts from its
/// `[` on and without what pads its end.
pub open spec fn reference_definition(line: Seq<u8>) -> Option<DefinitionModel> {
    let i = indent(line);
    let close = find_byte_from(line, RBRACKET, i + 1);
    let end = padding_trimmed_end(line, close + 2, line.len() as int);
    if i < line.len() && line[i] == LBRACKET && i + 1 < close && close + 1 < line.len() && line[close
        + 1] == COLON && line[i + 1] != CARET && !byte_in_range(line, LBRACKET, i + 1, close)
        && end > close + 2 {
        Some(
            DefinitionModel {
                label: Seq::new((close - i - 1) as nat, |j: int| ascii_lower(line[i + 1 + j])),
                line: line.subrange(i, end),
            },
        )
    } else {
        None
    }
}

/// The label in lower case.
fn lowered(label: &[u8]) -> (r: Vec<u8>)
    ensures
        r@ == Seq::new(label@.len(), |j: int| ascii_lower(label@[j])),
{
    let mut out: Vec<u8> = Vec::new();
    let mut i: usize = 0;
    while i < label.len()
        invariant
            i <= label@.len(),
            out@.len() == i,
            forall|j: int| 0 <= j < i ==> out@[j] == ascii_lower(label@[j]),
        decreases label@.len() - i,
    {
        out.push(to_ascii_lower(label[i]));
        i += 1;
    }
    assert(out@ =~= Seq::new(label@.len(), |j: int| ascii_lower(label@[j])));
    out
}

/// The link reference definition that the line holds, if it holds one.
pub fn extract_reference_definition_line(line: &str) -> (r: Option<ReferenceDefinition>)
    ensures
        match r {
            Some(d) => reference_definition(line.spec_bytes()) == Some(d@),
            None => reference_definition(line.spec_bytes()) is None,
        },
{
    let bytes = line.as_bytes();
    let n = bytes.len();
    let i = leading_indent(bytes);
    if !(i < n && bytes[i] == LBRACKET) {
        return None;
    }
    let close = first_byte_from(bytes, RBRACKET, i + 1);
    proof {
        lemma_find_byte_from(bytes@, RBRACKET, i + 1);
    }
    if !(i + 1 < close && n - close > 1 && bytes[close + 1] == COLON) {
        return None;
    }
    if bytes[i + 1] == CARET || has_byte_in_range(bytes, LBRACKET, i + 1, close) {
        return None;
    }
    let mut end: usize = n;
    while end > close + 2 && (bytes[end - 1] == SPACE || bytes[end - 1] == TAB || bytes[end - 1]
        == CARRIAGE_RETURN)
        invariant
            n == bytes@.len(),
            close + 2 <= end <= n,
            end == n || bytes@[end as int] < 0x80,
            padding_trimmed_end(bytes@, close + 2, n as int) == padding_trimmed_end(
                bytes@,
                close + 2,
                end as int,
            ),
        decreases end,
    {
        end -= 1;
    }
    if end <= close + 2 {
        return None;
    }
    let label = lowered(vstd::slice::slice_subrange(bytes, i + 1, close));
    let text = owned(str_range(line, i, end));
    proof {
        assert(label@ =~= Seq::new(
            (close - i - 1) as nat,
            |j: int| ascii_lower(bytes@[i + 1 + j]),
        ));
    }
    Some(ReferenceDefinition { label, line: text })
}

/// The definitions as mathematical values.
pub open spec fn definition_models(defs: Seq<ReferenceDefinition>) -> Seq<DefinitionModel> {
    Seq::new(defs.len(), |i: int| defs[i]@)
}

/// Where a definition with the label belongs: the first position from
/// `from` on whose label does not come before it.
pub open spec fn insertion_point(defs: Seq<DefinitionModel>, label: Seq<u8>, from: int) -> int
    decreases defs.len() - from,
{
    if from < 0 || from >= defs.len() {
        defs.len() as int
    } else if comes_before(defs[from].label, label) {
        insertion_point(defs, label, from + 1)
    } else {
        from
    }
}

/// The definitions with one more: it takes the place of the one with its
/// label, or else goes in where its label belongs.
pub open spec fn upserted(defs: Seq<DefinitionModel>, d: DefinitionModel) -> Seq<DefinitionModel> {
    let at = insertion_point(defs, d.label, 0);
    if at < defs.len() && defs[at].label == d.label {
        defs.update(at, d)
    } else {
        defs.insert(at, d)
    }
}

/// The definitions stand in the order of their labels, each label once.
pub open spec fn label_sorted(defs: Seq<DefinitionModel>) -> bool {
    forall|i: int, j: int|
        0 <= i < j < defs.len() ==> comes_before(
            (#[trigger] defs[i]).label,
            (#[trigger] defs[j]).label,
        )
}

/// Every label before the insertion point comes before the label, and the
/// label at it does not.
pub proof fn lemma_insertion_point(defs: Seq<DefinitionModel>, label: Seq<u8>, from: int)
    requires
        0 <= from <= defs.len(),
    ensures
        from <= insertion_point(defs, label, from) <= defs.len(),
        forall|i: int|
            from <= i < insertion_point(defs, label, from) ==> comes_before(
                (#[trigger] defs[i]).label,
                label,
            ),
        insertion_point(defs, label, from) < defs.len() ==> !comes_before(
            defs[insertion_point(defs, label, from)].label,
            label,
        ),
    decreases defs.len() - from,
{
    if from < defs.len() && comes_before(defs[from].label, label) {
        lemma_insertion_point(defs, label, from + 1);
    }
}

/// Taking a definition in keeps the definitions in the order of their labels.
pub proof fn lemma_upserted_sorted(defs: Seq<DefinitionModel>, d: DefinitionModel)
    requires
        label_sorted(defs),
    ensures
        label_sorted(upserted(defs, d)),
{
    let at = insertion_point(defs, d.label, 0);
    lemma_insertion_point(defs, d.label, 0);
    let out = upserted(defs, d);
    if at < defs.len() && defs[at].label == d.label {
        assert forall|i: int, j: int| 0 <= i < j < out.len() implies comes_before(
            (#[trigger] out[i]).label,
            (#[trigger] out[j]).label,
        ) by {
            assert(out[i].label == defs[i].label);
            assert(out[j].label == defs[j].label);
        }
    } else {
        assert forall|j: int| at <= j < defs.len() implies comes_before(
            d.label,
            (#[trigger] defs[j]).label,
        ) by {
            lemma_order_total(d.label, defs[at].label, 0);
            if j > at {
                lemma_order_transitive(d.label, defs[at].label, defs[j].label, 0);
            }
        }
        assert forall|i: int, j: int| 0 <= i < j < out.len() implies comes_before(
            (#[trigger] out[i]).label,
            (#[trigger] out[j]).label,
        ) by {
            let a = if i < at {
                defs[i]
            } else if i == at {
                d
            } else {
                defs[i - 1]
            };
            let b = if j < at {
                defs[j]
            } else if j == at {
                d
            } else {
                defs[j - 1]
            };
            assert(out[i] == a);
            assert(out[j] == b);
        }
    }
}

/// Takes the definition in, and says whether that changed anything.
fn upsert(defs: &mut Vec<ReferenceDefinition>, d: ReferenceDefinition) -> (changed: bool)
    ensures
        definition_models(final(defs)@) == upserted(definition_models(old(defs)@), d@),
        !changed ==> definition_models(final(defs)@) == definition_models(old(defs)@),
{
    let ghost before = definition_models(defs@);
    let mut i: usize = 0;
    while i < defs.len() && bytes_before(defs[i].label.as_slice(), d.label.as_slice())
        invariant
            i <= defs@.len(),
            definition_models(defs@) == before,
            before == definition_models(old(defs)@),
            insertion_point(before, d@.label, 0) == insertion_point(before, d@.label, i as int),
        decreases defs@.len() - i,
    {
        proof {
            assert(before[i as int] == defs@[i as int]@);
        }
        i += 1;
    }
    proof {
        assert(i < defs@.len() ==> before[i as int] == defs@[i as int]@);
    }
    if i < defs.len() && equal_bytes(defs[i].label.as_slice(), d.label.as_slice()) {
        let changed = !(defs[i].line == d.line);
        proof {
            if !changed {
                assert(d@ == before[i as int]);
                assert(before.update(i as int, d@) =~= before);
            }
        }
        defs.set(i, d);
        assert(definition_models(defs@) =~= before.update(i as int, d@));
        return changed;
    }
    defs.insert(i, d);
    assert(definition_models(defs@) =~= before.insert(i as int, d@));
    true
}

/// The definitions once the lines of `raw` from `start` on have been looked at.
pub open spec fn collected_from(defs: Seq<DefinitionModel>, raw: Seq<u8>, start: int) -> Seq<
    DefinitionModel,
>
    decreases raw.len() - start,
{
    if start < 0 || start > raw.len() {
        defs
    } else {
        let end = find_byte_from(raw, NEWLINE, start);
        let next = match reference_definition(raw.subrange(start, end)) {
            Some(d) => upserted(defs, d),
            None => defs,
        };
        if start <= end < raw.len() {
            collected_from(next, raw, end + 1)
        } else {
            next
        }
    }
}

/// Looking at more lines keeps the definitions in the order of their labels.
pub proof fn lemma_collected_sorted(defs: Seq<DefinitionModel>, raw: Seq<u8>, start: int)
    requires
        label_sorted(defs),
    ensures
        label_sorted(collected_from(defs, raw, start)),
    decreases raw.len() - start,
{
    if 0 <= start <= raw.len() {
        let end = find_byte_from(raw, NEWLINE, start);
        let next = match reference_definition(raw.subrange(start, end)) {
            Some(d) => upserted(defs, d),
            None => defs,
        };
        if reference_definition(raw.subrange(start, end)) is Some {
            lemma_upserted_sorted(defs, reference_definition(raw.subrange(start, end))->0);
        }
        if start <= end < raw.len() {
            lemma_collected_sorted(next, raw, end + 1);
        }
    }
}

/// The definitions once every line of `raw` has been looked at: each line
/// that holds a definition takes the place of the one with its label, or
/// else goes in where its label belongs.
pub open spec fn collected(defs: Seq<DefinitionModel>, raw: Seq<u8>) -> Seq<DefinitionModel> {
    collected_from(defs, raw, 0)
}

/// The lines of the first `upto` definitions, with a newline between them.
pub open spec fn definition_lines(defs: Seq<DefinitionModel>, upto: int) -> Seq<u8>
    decreases upto,
{
    if upto <= 0 || upto > defs.len() {
        Seq::empty()
    } else if upto == 1 {
        defs[0].line
    } else {
        definition_lines(defs, upto - 1) + seq![NEWLINE] + defs[upto - 1].line
    }
}

/// The text of all definitions.
pub open spec fn definitions_text(defs: Seq<DefinitionModel>) -> Seq<u8> {
    definition_lines(defs, defs.len() as int)
}

/// The text that is parsed for `raw`: `raw` itself, or the definitions, an
/// empty line and `raw`.
pub open spec fn parse_input(definitions: Seq<u8>, raw: Seq<u8>) -> Seq<u8> {
    if definitions.len() == 0 {
        raw
    } else {
        definitions + seq![NEWLINE, NEWLINE] + raw
    }
}

/// A newline as a string.
fn newline() -> (r: &'static str)
    ensures
        r.spec_bytes() == seq![NEWLINE],
{
    let r = "\n";
    proof {
        reveal_strlit("\n");
        crate::utf8::lemma_ascii_literal(r@, seq![NEWLINE]);
    }
    r
}

/// How the adapter parses.
#[derive(Debug, Clone)]
pub struct PulldownAdapterOptions {
    /// The bits of the `pulldown_cmark::Options` to parse with.
    pub pulldown: u32,
    /// Whether a pending block is parsed from its display text, where it has one.
    pub prefer_display_for_pending: bool,
}

impl Default for PulldownAdapterOptions {
    fn default() -> (r: Self)
        ensures
            r.pulldown == 0,
            r.prefer_display_for_pending,
    {
        PulldownAdapterOptions { pulldown: 0, prefer_display_for_pending: true }
    }
}

/// What the adapter holds: the text and the events of each committed block
/// by its identifier, and the link reference definitions seen so far.
pub struct AdapterModel {
    pub raws: Map<u64, Seq<u8>>,
    pub events: Map<u64, Seq<pulldown_cmark::Event<'static>>>,
    pub definitions: Seq<DefinitionModel>,
}

/// The events of `raw`, parsed after the definitions.
pub open spec fn parsed(definitions: Seq<DefinitionModel>, raw: Seq<u8>, option_bits: u32) -> Seq<
    pulldown_cmark::Event<'static>,
> {
    markdown_events(parse_input(definitions_text(definitions), raw), option_bits)
}

/// The adapter after a committed block: the definitions of the block are
/// taken in, and the block is parsed after all definitions seen so far.
pub open spec fn with_block(m: AdapterModel, id: u64, raw: Seq<u8>, option_bits: u32)
    -> AdapterModel {
    let definitions = collected(m.definitions, raw);
    AdapterModel {
        raws: m.raws.insert(id, raw),
        events: m.events.insert(id, parsed(definitions, raw, option_bits)),
        definitions,
    }
}

/// The adapter after the first `upto` of the committed blocks, in their order.
pub open spec fn with_blocks(m: AdapterModel, blocks: Seq<Block>, upto: int, option_bits: u32)
    -> AdapterModel
    decreases upto,
{
    if upto <= 0 || upto > blocks.len() {
        m
    } else {
        with_block(
            with_blocks(m, blocks, upto - 1, option_bits),
            blocks[upto - 1].id.0,
            encode_utf8(blocks[upto - 1].raw@),
            option_bits,
        )
    }
}

/// The adapter after a block is parsed again, if it holds the block.
pub open spec fn reparsed(m: AdapterModel, id: u64, option_bits: u32) -> AdapterModel {
    if m.raws.contains_key(id) {
        AdapterModel {
            events: m.events.insert(id, parsed(m.definitions, m.raws[id], option_bits)),
            ..m
        }
    } else {
        m
    }
}

/// The adapter after the first `upto` of the blocks to parse again.
pub open spec fn with_reparsed(m: AdapterModel, ids: Seq<BlockId>, upto: int, option_bits: u32)
    -> AdapterModel
    decreases upto,
{
    if upto <= 0 || upto > ids.len() {
        m
    } else {
        reparsed(with_reparsed(m, ids, upto - 1, option_bits), ids[upto - 1].0, option_bits)
    }
}

/// The adapter after an update: first its committed blocks, then the blocks
/// to parse again.
pub open spec fn applied(m: AdapterModel, update: Update, option_bits: u32) -> AdapterModel {
    with_reparsed(
        with_blocks(m, update.committed@, update.committed@.len() as int, option_bits),
        update.invalidated@,
        update.invalidated@.len() as int,
        option_bits,
    )
}

/// Parses the blocks of a stream with `pulldown-cmark`, and keeps the events
/// of the committed ones.
#[derive(Debug)]
pub struct PulldownAdapter {
    opts: PulldownAdapterOptions,
    committed_raw: HashMap<u64, String>,
    committed_cache: HashMap<u64, Vec<pulldown_cmark::Event<'static>>>,
    reference_definitions: Vec<ReferenceDefinition>,
    reference_definitions_text: String,
}

impl View for PulldownAdapter {
    type V = AdapterModel;

    closed spec fn view(&self) -> AdapterModel {
        AdapterModel {
            raws: Map::new(
                |id: u64| self.committed_raw@.contains_key(id),
                |id: u64| encode_utf8(self.committed_raw@[id]@),
            ),
            events: Map::new(
                |id: u64| self.committed_cache@.contains_key(id),
                |id: u64| self.committed_cache@[id]@,
            ),
            definitions: definition_models(self.reference_definitions@),
        }
    }
}

impl Default for PulldownAdapter {
    fn default() -> (r: Self)
        ensures
            r.wf(),
            r@.raws == Map::<u64, Seq<u8>>::empty(),
            r@.events == Map::<u64, Seq<pulldown_cmark::Event<'static>>>::empty(),
            r@.definitions == Seq::<DefinitionModel>::empty(),
            r.option_bits() == 0,
            r.prefers_display(),
    {
        PulldownAdapter::new(PulldownAdapterOptions::default())
    }
}

impl PulldownAdapter {
    /// The definitions stand in the order of their labels, and their text is
    /// up to date.
    pub closed spec fn wf(&self) -> bool {
        label_sorted(self@.definitions) && encode_utf8(self.reference_definitions_text@)
            == definitions_text(self@.definitions)
    }

    /// The bits of the options that the adapter parses with.
    pub closed spec fn option_bits(&self) -> u32 {
        self.opts.pulldown
    }

    /// Whether the adapter parses a pending block from its display text.
    pub closed spec fn prefers_display(&self) -> bool {
        self.opts.prefer_display_for_pending
    }

    /// An adapter that holds nothing yet.
    pub fn new(opts: PulldownAdapterOptions) -> (r: Self)
        ensures
            r.wf(),
            r@.raws == Map::<u64, Seq<u8>>::empty(),
            r@.events == Map::<u64, Seq<pulldown_cmark::Event<'static>>>::empty(),
            r@.definitions == Seq::<DefinitionModel>::empty(),
            r.option_bits() == opts.pulldown,
            r.prefers_display() == opts.prefer_display_for_pending,
    {
        let r = PulldownAdapter {
            opts,
            committed_raw: HashMap::new(),
            committed_cache: HashMap::new(),
            reference_definitions: Vec::new(),
            reference_definitions_text: String::new(),
        };
        proof {
            assert(r@.raws =~= Map::<u64, Seq<u8>>::empty());
            assert(r@.events =~= Map::<u64, Seq<pulldown_cmark::Event<'static>>>::empty());
            assert(r@.definitions =~= Seq::<DefinitionModel>::empty());
        }
        r
    }

    /// Forgets every block and every definition.
    pub fn clear(&mut self)
        ensures
            final(self).wf(),
            final(self)@.raws == Map::<u64, Seq<u8>>::empty(),
            final(self)@.events == Map::<u64, Seq<pulldown_cmark::Event<'static>>>::empty(),
            final(self)@.definitions == Seq::<DefinitionModel>::empty(),
            final(self).option_bits() == old(self).option_bits(),
            final(self).prefers_display() == old(self).prefers_display(),
    {
        self.committed_raw.clear();
        self.committed_cache.clear();
        self.reference_definitions.clear();
        self.reference_definitions_text = String::new();
        proof {
            assert(self@.raws =~= Map::<u64, Seq<u8>>::empty());
            assert(self@.events =~= Map::<u64, Seq<pulldown_cmark::Event<'static>>>::empty());
            assert(self@.definitions =~= Seq::<DefinitionModel>::empty());
        }
    }

    /// The events of `raw`, parsed after the definitions seen so far.
    fn parse_with_definitions(&self, raw: &str) -> (r: Vec<pulldown_cmark::Event<'static>>)
        requires
            self.wf(),
        ensures
            r@ == parsed(self@.definitions, raw.spec_bytes(), self.option_bits()),
    {
        if self.reference_definitions_text.as_str().as_bytes().len() == 0 {
            return parse_events_static(raw, self.opts.pulldown);
        }
        let mut combined = self.reference_definitions_text.clone();
        push_str(&mut combined, newline());
        push_str(&mut combined, newline());
        push_str(&mut combined, raw);
        proof {
            assert(encode_utf8(combined@) =~= parse_input(
                definitions_text(self@.definitions),
                raw.spec_bytes(),
            ));
        }
        parse_events_static(combined.as_str(), self.opts.pulldown)
    }

    /// Takes in the definitions that the lines of `raw` hold, and says
    /// whether that changed anything.
    fn collect_reference_definitions(&mut self, raw: &str) -> (changed: bool)
        ensures
            final(self)@.definitions == collected(old(self)@.definitions, raw.spec_bytes()),
            !changed ==> final(self)@.definitions == old(self)@.definitions,
            final(self)@.raws == old(self)@.raws,
            final(self)@.events == old(self)@.events,
            final(self).opts == old(self).opts,
            final(self).reference_definitions_text == old(self).reference_definitions_text,
    {
        let bytes = raw.as_bytes();
        let n = bytes.len();
        let ghost first = self@.definitions;
        let ghost pre = *self;
        let mut changed = false;
        let mut start: usize = 0;
        loop
            invariant_except_break
                collected(first, bytes@) == collected_from(self@.definitions, bytes@, start as int),
            invariant
                bytes@ == raw.spec_bytes(),
                n == bytes@.len(),
                start <= n,
                start == 0 || bytes@[start - 1] == NEWLINE,
                !changed ==> self@.definitions == first,
                self.committed_raw == pre.committed_raw,
                self.committed_cache == pre.committed_cache,
                self.opts == pre.opts,
                self.reference_definitions_text == pre.reference_definitions_text,
            ensures
                self@.definitions == collected(first, bytes@),
            decreases n - start,
        {
            let end = first_byte_from(bytes, NEWLINE, start);
            proof {
                lemma_find_byte_from(bytes@, NEWLINE, start as int);
            }
            let line = str_range(raw, start, end);
            if let Some(d) = extract_reference_definition_line(line) {
                if upsert(&mut self.reference_definitions, d) {
                    changed = true;
                }
            }
            if end < n {
                start = end + 1;
            } else {
                break;
            }
        }
        proof {
            assert(self@.raws =~= pre@.raws);
            assert(self@.events =~= pre@.events);
        }
        changed
    }

    /// Writes the text of the definitions anew.
    fn refresh_reference_definitions_text(&mut self)
        requires
            label_sorted(old(self)@.definitions),
        ensures
            final(self).wf(),
            final(self)@ == old(self)@,
            final(self).opts == old(self).opts,
    {
        let ghost pre = *self;
        let ghost defs = self@.definitions;
        let mut text = String::new();
        let mut i: usize = 0;
        while i < self.reference_definitions.len()
            invariant
                i <= self.reference_definitions@.len(),
                definition_models(self.reference_definitions@) == defs,
                encode_utf8(text@) == definition_lines(defs, i as int),
            decreases self.reference_definitions@.len() - i,
        {
            if i > 0 {
                push_str(&mut text, newline());
            }
            push_str(&mut text, self.reference_definitions[i].line.as_str());
            proof {
                assert(defs[i as int] == self.reference_definitions@[i as int]@);
                assert(encode_utf8(text@) =~= definition_lines(defs, i + 1));
            }
            i += 1;
        }
        self.reference_definitions_text = text;
        proof {
            assert(self@.raws =~= pre@.raws);
            assert(self@.events =~= pre@.events);
        }
    }

    /// Takes in a committed block.
    fn take_block(&mut self, block: &Block)
        requires
            old(self).wf(),
        ensures
            final(self).wf(),
            final(self)@ == with_block(
                old(self)@,
                block.id.0,
                encode_utf8(block.raw@),
                old(self).option_bits(),
            ),
            final(self).opts == old(self).opts,
    {
        broadcast use vstd::std_specs::hash::group_hash_axioms;

        let ghost pre = self@;
        let id = block.id.0;
        self.committed_raw.insert(id, block.raw.clone());
        proof {
            lemma_collected_sorted(pre.definitions, encode_utf8(block.raw@), 0);
        }
        if self.collect_reference_definitions(block.raw.as_str()) {
            self.refresh_reference_definitions_text();
        }
        let events = self.parse_with_definitions(block.raw.as_str());
        self.committed_cache.insert(id, events);
        proof {
            let after = with_block(pre, id, encode_utf8(block.raw@), self.option_bits());
            assert(self@.raws =~= after.raws);
            assert(self@.events =~= after.events);
        }
    }

    /// Parses a block again that the adapter holds.
    fn parse_again(&mut self, id: u64)
        requires
            old(self).wf(),
        ensures
            final(self).wf(),
            final(self)@ == reparsed(old(self)@, id, old(self).option_bits()),
            final(self).opts == old(self).opts,
    {
        broadcast use vstd::std_specs::hash::group_hash_axioms;

        let ghost pre = self@;
        let events = match self.committed_raw.get(&id) {
            Some(raw) => self.parse_with_definitions(raw.as_str()),
            None => {
                return;
            },
        };
        self.committed_cache.insert(id, events);
        proof {
            let after = reparsed(pre, id, self.option_bits());
            assert(self@.raws =~= after.raws);
            assert(self@.events =~= after.events);
        }
    }

    /// Takes in an update: its committed blocks in their order, each parsed
    /// after the definitions seen up to it, and then the blocks to parse again.
    pub fn apply_update(&mut self, update: &Update)
        requires
            old(self).wf(),
        ensures
            final(self).wf(),
            final(self)@ == applied(old(self)@, *update, old(self).option_bits()),
            final(self).option_bits() == old(self).option_bits(),
            final(self).prefers_display() == old(self).prefers_display(),
    {
        let ghost pre = self@;
        let ghost bits = self.option_bits();
        let ghost opts = self.opts;
        let mut i: usize = 0;
        while i < update.committed.len()
            invariant
                i <= update.committed@.len(),
                self.wf(),
                self.opts == opts,
                bits == opts.pulldown,
                self@ == with_blocks(pre, update.committed@, i as int, bits),
            decreases update.committed@.len() - i,
        {
            self.take_block(&update.committed[i]);
            i += 1;
        }
        let ghost mid = self@;
        let mut j: usize = 0;
        while j < update.invalidated.len()
            invariant
                j <= update.invalidated@.len(),
                self.wf(),
                self.opts == opts,
                bits == opts.pulldown,
                self@ == with_reparsed(mid, update.invalidated@, j as int, bits),
            decreases update.invalidated@.len() - j,
        {
            self.parse_again(update.invalidated[j].0);
            j += 1;
        }
    }

    /// The events of a committed block.
    pub fn committed_events(&self, id: BlockId) -> (r: Option<&[pulldown_cmark::Event<'static>]>)
        ensures
            match r {
                Some(events) => self@.events.contains_key(id.0) && events@ == self@.events[id.0],
                None => !self@.events.contains_key(id.0),
            },
    {
        broadcast use vstd::std_specs::hash::group_hash_axioms;

        match self.committed_cache.get(&id.0) {
            Some(v) => Some(v.as_slice()),
            None => None,
        }
    }

    /// The text that a pending block is parsed from.
    pub open spec fn pending_input(block: Block, prefer_display: bool) -> Seq<u8> {
        if prefer_display {
            block.shown()
        } else {
            encode_utf8(block.raw@)
        }
    }

    /// The events of a pending block, parsed after the definitions seen so far.
    pub fn parse_pending(&self, pending: &Block) -> (r: Vec<pulldown_cmark::Event<'static>>)
        requires
            self.wf(),
        ensures
            r@ == parsed(
                self@.definitions,
                Self::pending_input(*pending, self.prefers_display()),
                self.option_bits(),
            ),
    {
        let input = if self.opts.prefer_display_for_pending {
            pending.display_or_raw()
        } else {
            pending.raw.as_str()
        };
        self.parse_with_definitions(input)
    }
}

/// Committed blocks may come all at once or in two parts: the adapter ends
/// up the same.
pub proof fn lemma_blocks_in_two(
    m: AdapterModel,
    first: Seq<Block>,
    second: Seq<Block>,
    upto: int,
    option_bits: u32,
)
    requires
        0 <= upto <= second.len(),
    ensures
        with_blocks(m, first + second, first.len() + upto, option_bits) == with_blocks(
            with_blocks(m, first, first.len() as int, option_bits),
            second,
            upto,
            option_bits,
        ),
    decreases upto,
{
    if upto == 0 {
        lemma_blocks_of_start(m, first, second, first.len() as int, option_bits);
    } else {
        lemma_blocks_in_two(m, first, second, upto - 1, option_bits);
        assert((first + second)[first.len() + upto - 1] == second[upto - 1]);
    }
}

/// The first blocks of a list decide alone what the adapter makes of them.
pub proof fn lemma_blocks_of_start(
    m: AdapterModel,
    first: Seq<Block>,
    second: Seq<Block>,
    upto: int,
    option_bits: u32,
)
    requires
        0 <= upto <= first.len(),
    ensures
        with_blocks(m, first + second, upto, option_bits) == with_blocks(
            m,
            first,
            upto,
            option_bits,
        ),
    decreases upto,
{
    if upto > 0 {
        lemma_blocks_of_start(m, first, second, upto - 1, option_bits);
        assert((first + second)[upto - 1] == first[upto - 1]);
    }
}

/// Cutting the committed blocks of one update into two updates changes
/// nothing: where no block is to be parsed again, taking in the two updates
/// one after the other gives what taking in the one update gives.
pub proof fn lemma_updates_in_two(
    m: AdapterModel,
    whole: Update,
    first: Update,
    second: Update,
    option_bits: u32,
)
    requires
        whole.committed@ == first.committed@ + second.committed@,
        whole.invalidated@.len() == 0,
        first.invalidated@.len() == 0,
        second.invalidated@.len() == 0,
    ensures
        applied(applied(m, first, option_bits), second, option_bits) == applied(
            m,
            whole,
            option_bits,
        ),
{
    lemma_blocks_in_two(
        m,
        first.committed@,
        second.committed@,
        second.committed@.len() as int,
        option_bits,
    );
}

/// The adapter holds the events of the blocks that it held and of those that
/// it has taken in, and of no others.
pub proof fn lemma_blocks_are_held(
    m: AdapterModel,
    blocks: Seq<Block>,
    upto: int,
    option_bits: u32,
    id: u64,
)
    requires
        0 <= upto <= blocks.len(),
    ensures
        with_blocks(m, blocks, upto, option_bits).events.contains_key(id) <==> (
        m.events.contains_key(id) || exists|i: int|
            0 <= i < upto && (#[trigger] blocks[i]).id.0 == id),
    decreases upto,
{
    if upto > 0 {
        lemma_blocks_are_held(m, blocks, upto - 1, option_bits, id);
        if blocks[upto - 1].id.0 == id {
            assert(0 <= upto - 1 < upto && blocks[upto - 1].id.0 == id);
        }
    }
}

} // verus!
