//! The options of a stream.
use vstd::prelude::*;
use crate::pending::terminator::TerminatorOptions;

verus! {

/// How a stream prepares the display text of its pending block. The
/// boundary plugins and the pending transformers are given to the stream
/// itself, in the order in which they are to be asked.
#[derive(Debug, Clone)]
pub struct Options {
    pub terminator: TerminatorOptions,
}

impl Default for Options {
    fn default() -> (r: Self)
        ensures
            r.terminator.setext_headings,
            r.terminator.links,
            r.terminator.images,
            r.terminator.emphasis,
            r.terminator.inline_code,
            r.terminator.strikethrough,
            r.terminator.katex_block,
            r.terminator.incomplete_link_url@ == "streamdown:incomplete-link"@,
            r.terminator.window_bytes == 16384,
    {
        Options { terminator: TerminatorOptions::default() }
    }
}

} // verus!
