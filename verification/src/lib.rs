//! A streaming splitter of Markdown into blocks.
//!
//! Text arrives in chunks, as a model writes it. The [`MdStream`] cuts it into
//! blocks: those that are complete are committed and do not change any more,
//! and what follows them is the one pending block. The pending block comes
//! with a display text in which the terminator has closed what the text has
//! left open, so that it can be shown as it grows without changing its looks.
pub mod adapters;
pub mod boundary;
pub mod bytes;
pub mod options;
pub mod pending;
pub mod stream;
pub mod syntax;
pub mod text;
pub mod transform;
pub mod types;
pub mod unicode;
pub mod utf8;

pub use boundary::{BoundaryPlugin, BoundaryUpdate, FenceBoundaryPlugin, TagBoundaryPlugin};
pub use options::Options;
pub use pending::{terminate_markdown, TerminatorOptions};
pub use stream::{MdStream, Mode};
pub use transform::{FnPendingTransformer, PendingTransformInput, PendingTransformer};
pub use types::{Block, BlockId, BlockKind, BlockStatus, Update};
