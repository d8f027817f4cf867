//! Blocks and the updates that carry them.
use vstd::prelude::*;
use vstd::utf8::*;

verus! {

/// The identifier of a block: unique within a stream and never used twice.
#[derive(Debug, Clone, Copy, PartialEq, Eq, PartialOrd, Ord, Hash, Structural)]
pub struct BlockId(pub u64);

#[derive(Debug, Clone, Copy, PartialEq, Eq, Structural)]
pub enum BlockStatus {
    Committed,
    Pending,
}

#[derive(Debug, Clone, Copy, PartialEq, Eq, Structural)]
pub enum BlockKind {
    Paragraph,
    Heading,
    ThematicBreak,
    CodeFence,
    List,
    BlockQuote,
    Table,
    HtmlBlock,
    MathBlock,
    FootnoteDefinition,
    /// A range that a boundary plugin has claimed.
    CustomBoundary,
    Unknown,
}

#[derive(Debug, Clone, PartialEq, Eq)]
pub struct Block {
    pub id: BlockId,
    pub status: BlockStatus,
    pub kind: BlockKind,
    pub raw: String,
    /// The text to show in place of `raw`, where that has been repaired.
    pub display: Option<String>,
}

#[derive(Debug, Clone, PartialEq, Eq)]
pub struct Update {
    pub committed: Vec<Block>,
    pub pending: Option<Block>,
    /// Committed blocks that an adapter may want to parse again.
    pub invalidated: Vec<BlockId>,
}

/// The mathematical value of a [`Block`]: its text as bytes.
pub struct BlockModel {
    pub id: u64,
    pub status: BlockStatus,
    pub kind: BlockKind,
    pub raw: Seq<u8>,
    pub display: Option<Seq<u8>>,
}

impl View for Block {
    type V = BlockModel;

    open spec fn view(&self) -> BlockModel {
        BlockModel {
            id: self.id.0,
            status: self.status,
            kind: self.kind,
            raw: encode_utf8(self.raw@),
            display: match self.display {
                Some(d) => Some(encode_utf8(d@)),
                None => None,
            },
        }
    }
}

impl Block {
    /// The text to show: the display text where there is one, else the raw text.
    pub open spec fn shown(&self) -> Seq<u8> {
        match self.display {
            Some(d) => encode_utf8(d@),
            None => encode_utf8(self.raw@),
        }
    }

    /// The text to show: the display text where there is one, else the raw
    /// text.
    pub fn display_or_raw(&self) -> (r: &str)
        ensures
            encode_utf8(r@) == self.shown(),
    {
        match &self.display {
            Some(d) => d.as_str(),
            None => self.raw.as_str(),
        }
    }
}

impl Update {
    /// The update that holds nothing.
    pub fn empty() -> (r: Self)
        ensures
            r.committed@.len() == 0,
            r.pending is None,
            r.invalidated@.len() == 0,
    {
        Update { committed: Vec::new(), pending: None, invalidated: Vec::new() }
    }
}

} // verus!
