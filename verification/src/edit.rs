//! The text edit that writes the output of a run back into the document.

use crate::syntax::{Point, SyntaxNode};
use vstd::prelude::*;
use vstd::string::*;

verus! {

/// A zero-based line and character offset, as an editor counts them.
#[derive(Clone, Copy, Debug, PartialEq, Eq, Structural)]
pub struct Position {
    pub line: u32,
    pub character: u32,
}

/// The stretch of a document between two positions.
#[derive(Clone, Copy, Debug, PartialEq, Eq, Structural)]
pub struct Range {
    pub start: Position,
    pub end: Position,
}

/// A replacement of the text within `range` by `new_text`. Where the range
/// is empty the text is inserted at its position.
#[derive(Debug, PartialEq, Eq)]
pub struct TextEdit {
    pub range: Range,
    pub new_text: String,
}

/// What opens the fence of an output block, up to the status of the run.
pub const OUTPUT_FENCE: &'static str = "```output ";

/// What closes an output block, after the captured text.
pub const CLOSING_FENCE: &'static str = "\n```";

/// What separates lines.
pub const NEWLINE: &'static str = "\n";

/// How many values a line or character offset of an editor can take.
pub const OFFSETS: u64 = 0x1_0000_0000;

/// The editor's offset for an offset of the syntax tree: the same number
/// where the editor can count that far, and its low 32 bits beyond.
pub open spec fn offset_of(n: usize) -> u32 {
    (n as int % OFFSETS as int) as u32
}

/// The editor's position for a point of the syntax tree: row for line and
/// column for character.
pub open spec fn position_of(p: Point) -> Position {
    Position { line: offset_of(p.row), character: offset_of(p.column) }
}

/// The range between the two ends of a node.
pub open spec fn range_of(node: SyntaxNode) -> Range {
    Range { start: position_of(node.start), end: position_of(node.end) }
}

/// Where the output of a run of `source` goes: over the whole of the output
/// block where the action has one, and else at the end of `source`, as an
/// insertion.
pub open spec fn target_range(source: SyntaxNode, output: Option<SyntaxNode>) -> Range {
    match output {
        Some(block) => range_of(block),
        None => Range { start: position_of(source.end), end: position_of(source.end) },
    }
}

/// A fenced block that records a run: the opening fence with the label
/// `output`, a space and the status; the captured text as it came; and the
/// closing fence on a line of its own.
pub open spec fn output_block(status: Seq<char>, captured: Seq<char>) -> Seq<char> {
    OUTPUT_FENCE@ + status + NEWLINE@ + captured + CLOSING_FENCE@
}

/// The text of the edit: the output block, after a line break where it is
/// inserted behind the source and bare where it takes the place of an
/// earlier output block.
pub open spec fn replacement(replaces: bool, status: Seq<char>, captured: Seq<char>) -> Seq<
    char,
> {
    if replaces {
        output_block(status, captured)
    } else {
        NEWLINE@ + output_block(status, captured)
    }
}

/// Turns a point of the syntax tree into an editor's position.
pub fn pos_ts_to_lsp(p: Point) -> (position: Position)
    ensures
        position == position_of(p),
        p.row <= u32::MAX ==> position.line == p.row,
        p.column <= u32::MAX ==> position.character == p.column,
{
    Position {
        line: (p.row as u64 % OFFSETS) as u32,
        character: (p.column as u64 % OFFSETS) as u32,
    }
}

/// The range of the document that `node` covers.
pub fn node_range(node: &SyntaxNode) -> (range: Range)
    ensures
        range == range_of(*node),
{
    Range { start: pos_ts_to_lsp(node.start), end: pos_ts_to_lsp(node.end) }
}

/// The range that the output of a run of `source` is written to.
pub fn edit_range(source: &SyntaxNode, output: Option<&SyntaxNode>) -> (range: Range)
    ensures
        range == target_range(
            *source,
            match output {
                Some(block) => Some(*block),
                None => None,
            },
        ),
{
    match output {
        Some(block) => node_range(block),
        None => {
            let end = pos_ts_to_lsp(source.end);
            Range { start: end, end }
        },
    }
}

/// The text that records a run with the given status and captured output.
pub fn edit_text(replaces: bool, status: &str, captured: &str) -> (text: String)
    ensures
        text@ == replacement(replaces, status@, captured@),
{
    let mut text = String::new();
    if !replaces {
        text.append(NEWLINE);
    }
    text.append(OUTPUT_FENCE);
    text.append(status);
    text.append(NEWLINE);
    text.append(captured);
    text.append(CLOSING_FENCE);
    assert(text@ =~= replacement(replaces, status@, captured@));
    text
}

/// Plans the edit that writes the result of running `source` into the
/// document: an insertion at the end of `source` where the action has no
/// output block, and a replacement of exactly that block where it has one.
pub fn plan(
    source: &SyntaxNode,
    output: Option<&SyntaxNode>,
    status: &str,
    captured: &str,
) -> (edit: TextEdit)
    ensures
        edit.range == target_range(
            *source,
            match output {
                Some(block) => Some(*block),
                None => None,
            },
        ),
        edit.new_text@ == replacement(output.is_some(), status@, captured@),
        output.is_none() ==> edit.range.start == position_of(source.end) && edit.range.end
            == position_of(source.end),
        output matches Some(block) ==> edit.range == range_of(*block),
{
    TextEdit {
        range: edit_range(source, output),
        new_text: edit_text(output.is_some(), status, captured),
    }
}

} // verus!
