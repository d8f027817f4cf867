//! Termination of the pending tail: closing what a renderer would otherwise
//! show half-open while more text is still to come.
pub mod balance;
pub mod emphasis;
pub mod fences;
pub mod laws;
pub mod links;
pub mod literals;
pub mod marks;
pub mod terminator;
pub mod window;

pub use terminator::{TerminatorOptions, terminate_markdown};
