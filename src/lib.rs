//! Note indexer and cursor resolver for a markdown note collection with
//! `path@note#text` link addresses.

pub mod error;
pub mod laws;
pub mod link;
pub mod parser;

pub use error::{Error, NodeId};
pub use link::Link;
pub use parser::{parse_header, JumpMode, JumpTo, Note, Parse, Span, Target};
