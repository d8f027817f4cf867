//! Adapters that hand the blocks of a stream on to a Markdown parser.
pub mod pulldown;
