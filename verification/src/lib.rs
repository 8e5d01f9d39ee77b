//! A Markdown document as an executable notebook.
//!
//! The fenced code blocks of a document can be run, and what a run prints is
//! written back into the document as a fenced block of its own, labelled as
//! output. This library is the document model behind that: it finds the code
//! blocks in the syntax tree of a document, pairs each with the output block
//! that follows it, gives every node an address by which a later request
//! finds it again, and plans the text edit that inserts or replaces an
//! output block. Running the code and talking to the editor are left to the
//! program around it.

pub mod actions;
pub mod blocks;
pub mod command;
pub mod edit;
pub mod error;
pub mod order;
pub mod provider;
pub mod store;
pub mod syntax;
pub mod text;

pub use actions::code_actions;
pub use blocks::code_content;
pub use edit::{node_range, pos_ts_to_lsp};
pub use provider::{parse, parser};
pub use syntax::node_by_id;
