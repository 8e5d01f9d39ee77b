//! What can go wrong while a document is served.

use vstd::prelude::*;

verus! {

/// The ways in which a request on a document can fail. Each failure ends
/// the one request and leaves every other document as it was.
#[derive(Clone, Copy, Debug, PartialEq, Eq, Structural)]
pub enum NotebookError {
    /// No syntax tree could be had for the text of a document.
    ParseFailure,
    /// An address names no node of the document's current tree.
    AddressNotFound,
    /// The process that runs a code block could not be started.
    ExecutionFailure,
    /// The arguments of a request are missing or garbled.
    ProtocolError,
}

} // verus!
