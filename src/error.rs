use vstd::prelude::*;

verus! {

/// Identifier of a note, as written before ` - ` in its heading.
pub type NodeId = String;

/// Everything that can go wrong while indexing notes or resolving a cursor.
#[derive(Debug, PartialEq)]
pub enum Error {
    /// A link address that breaks the grammar: line, raw address, reason.
    InvalidLink(usize, String, String),
    /// A level-one heading that is not of the form `id - title`: line, raw text.
    InvalidHeader(usize, String),
    /// A note id that the index does not hold.
    MissingNote(NodeId),
    /// A stale cursor or an unsupported request.
    Other(String),
}

/// `e` is an invalid-link error with exactly these parts.
pub open spec fn is_invalid_link(e: Error, line: usize, raw: Seq<char>, why: Seq<char>) -> bool {
    match e {
        Error::InvalidLink(l, q, m) => l == line && q@ == raw && m@ == why,
        _ => false,
    }
}

/// `e` is an invalid-header error with exactly these parts.
pub open spec fn is_invalid_header(e: Error, line: usize, raw: Seq<char>) -> bool {
    match e {
        Error::InvalidHeader(l, q) => l == line && q@ == raw,
        _ => false,
    }
}

} // verus!
