//! The Markdown parser behind the library: text in, syntax tree out.
//!
//! The parser is tree-sitter with its Markdown grammar. Its trees are walked
//! once and copied into [`SyntaxNode`]s, which the rest of the library works
//! on. Whatever the parser hands over is taken as it comes: that the tree
//! belongs to the text and lays its nodes out as a text does is tested
//! here, not believed.
//!
//! The library sets the parser up and reads its trees, but it does not run
//! it: the grammar ends the whole process on a text whose open blocks or
//! pending delimiters outgrow the buffer it keeps its state in, and nothing
//! short of the parse tells such a text from another. So the caller makes
//! the call and hands over what came of it.

use crate::error::NotebookError;
use crate::order::{ends_before, lies_between, spans_in_order};
use crate::syntax::{fits_text, Point, SyntaxNode};
use vstd::prelude::*;
use vstd::string::*;

verus! {

/// `tree_sitter::Parser`, carried about and never looked into.
#[verifier::external_type_specification]
#[verifier::external_body]
pub struct ExParser(tree_sitter::Parser);

/// `tree_sitter::Tree`, carried about and never looked into.
#[verifier::external_type_specification]
#[verifier::external_body]
pub struct ExTree(tree_sitter::Tree);

/// `tree_sitter::Node`, carried about and never looked into.
#[verifier::external_type_specification]
#[verifier::external_body]
pub struct ExNode<'a>(tree_sitter::Node<'a>);

/// `tree_sitter::Language`, carried about and never looked into.
#[verifier::external_type_specification]
#[verifier::external_body]
pub struct ExLanguage(tree_sitter::Language);

/// `tree_sitter::LanguageError`, carried about and never looked into.
#[verifier::external_type_specification]
#[verifier::external_body]
pub struct ExLanguageError(tree_sitter::LanguageError);

/// Where a node lies in the text, by position and by byte offset.
pub struct Span {
    pub start: Point,
    pub end: Point,
    pub start_byte: usize,
    pub end_byte: usize,
}

/// The topmost node of a tree of the parser.
pub uninterp spec fn root_of(tree: tree_sitter::Tree) -> tree_sitter::Node<'static>;

/// The number that tells a node of the parser apart within its tree.
pub uninterp spec fn id_of(node: tree_sitter::Node) -> usize;

/// The grammar's name for a node of the parser.
pub uninterp spec fn kind_of(node: tree_sitter::Node) -> Seq<char>;

/// Where a node of the parser lies in the text.
pub uninterp spec fn span_of(node: tree_sitter::Node) -> Span;

/// How many children a node of the parser says it has.
pub uninterp spec fn count_of(node: tree_sitter::Node) -> usize;

/// What a node of the parser hands out as its child at index `i`.
pub uninterp spec fn child_of(node: tree_sitter::Node, i: usize) -> Option<tree_sitter::Node>;

/// How high a tree the parser may hand over. It is as high as a machine can
/// count, so that no tree that fits into memory is refused; the walk over
/// the parser's tree counts down from it, which bounds its recursion.
pub const HEIGHT_LIMIT: usize = usize::MAX;

impl SyntaxNode {
    /// How many nodes the longest way down from the node passes, the node
    /// included.
    pub open spec fn height(self) -> nat
        decreases self,
    {
        1 + height_of(self.children@)
    }

    /// Whether the tree is a copy of the parser's tree below `node`: it
    /// carries the node's id, kind and span, has as many children as the
    /// node says it has, and each child is a copy of what the node hands out
    /// at its index.
    pub open spec fn copies(self, node: tree_sitter::Node) -> bool
        decreases self,
    {
        &&& self.id == id_of(node)
        &&& self.kind@ == kind_of(node)
        &&& self.start == span_of(node).start
        &&& self.end == span_of(node).end
        &&& self.start_byte == span_of(node).start_byte
        &&& self.end_byte == span_of(node).end_byte
        &&& self.children@.len() == count_of(node)
        &&& forall|i: usize|
            i < self.children@.len() ==> (#[trigger] child_of(node, i)).is_some()
                && self.children@[i as int].copies(child_of(node, i).unwrap())
    }

    /// Whether two trees show the same: node for node the same id, kind and
    /// span, and the same number of children.
    pub open spec fn alike(self, other: SyntaxNode) -> bool
        decreases self,
    {
        &&& self.id == other.id
        &&& self.kind@ == other.kind@
        &&& self.start == other.start
        &&& self.end == other.end
        &&& self.start_byte == other.start_byte
        &&& self.end_byte == other.end_byte
        &&& self.children@.len() == other.children@.len()
        &&& forall|i: int|
            0 <= i < self.children@.len() ==> (#[trigger] self.children@[i]).alike(
                other.children@[i],
            )
    }
}

/// Whether `tree` is the copy of what the parser made of a text: the parser
/// gave a tree, `tree` copies it from the root down, and it is no higher
/// than the limit.
pub open spec fn copy_of(parsed: Option<tree_sitter::Tree>, tree: SyntaxNode) -> bool {
    parsed matches Some(given) && tree.copies(root_of(given)) && tree.height() <= HEIGHT_LIMIT
}

impl SyntaxNode {
    /// Whether the tree can stand as the syntax tree of `text`: it belongs
    /// to `text` and lays its nodes out as a text does.
    pub open spec fn is_tree_of(self, text: Seq<char>) -> bool {
        self.fits(text) && self.in_order()
    }
}

/// Whether what the parser made of a text can be read as the syntax tree of
/// `text`: it has a copy, and the copy can stand as the tree of `text`.
pub open spec fn readable(parsed: Option<tree_sitter::Tree>, text: Seq<char>) -> bool {
    exists|tree: SyntaxNode| #[trigger] copy_of(parsed, tree) && tree.is_tree_of(text)
}

/// The greatest height among `nodes`, and zero where there are none.
pub open spec fn height_of(nodes: Seq<SyntaxNode>) -> nat
    decreases nodes,
{
    if nodes.len() == 0 {
        0
    } else {
        let before = height_of(nodes.drop_last());
        let last = nodes.last().height();
        if last > before {
            last
        } else {
            before
        }
    }
}

/// `tree_sitter::Parser::new`: a parser that has no language yet. Nothing is
/// claimed of it.
#[verifier::external_body]
fn new_parser() -> tree_sitter::Parser {
    tree_sitter::Parser::new()
}

/// `tree_sitter_markdown::language`: the Markdown grammar. Nothing is
/// claimed of it.
#[verifier::external_body]
fn markdown_language() -> tree_sitter::Language {
    tree_sitter_markdown::language()
}

/// `tree_sitter::Parser::set_language`: gives the parser its grammar, or
/// refuses a grammar of a version that the parser does not know. Nothing is
/// claimed of which it does.
#[verifier::external_body]
fn set_language(parser: &mut tree_sitter::Parser, language: tree_sitter::Language) -> Result<
    (),
    tree_sitter::LanguageError,
> {
    parser.set_language(language)
}

/// `tree_sitter::Tree::root_node`: the topmost node of the tree. The
/// contract gives it a name and claims only that it depends on the tree
/// alone.
#[verifier::external_body]
fn root_node<'a>(tree: &'a tree_sitter::Tree) -> (node: tree_sitter::Node<'a>)
    ensures
        node == root_of(*tree),
{
    tree.root_node()
}

/// `tree_sitter::Node::id`: the number that tells the node apart within its
/// tree. The contract gives it a name and claims only that it depends on
/// the node alone.
#[verifier::external_body]
fn node_id(node: &tree_sitter::Node) -> (id: usize)
    ensures
        id == id_of(*node),
{
    node.id()
}

/// `tree_sitter::Node::kind`: the grammar's name for the node. The contract
/// gives it a name and claims only that it depends on the node alone.
#[verifier::external_body]
fn node_kind(node: &tree_sitter::Node) -> (kind: &'static str)
    ensures
        kind@ == kind_of(*node),
{
    node.kind()
}

/// `tree_sitter::Node::range`: where the node lies, field for field. The
/// contract gives it a name and claims only that it depends on the node
/// alone.
#[verifier::external_body]
fn node_span(node: &tree_sitter::Node) -> (span: Span)
    ensures
        span == span_of(*node),
{
    let range = node.range();
    Span {
        start: Point { row: range.start_point.row, column: range.start_point.column },
        end: Point { row: range.end_point.row, column: range.end_point.column },
        start_byte: range.start_byte,
        end_byte: range.end_byte,
    }
}

/// `tree_sitter::Node::child_count`: how many children the node has. The
/// contract gives it a name and claims only that it depends on the node
/// alone.
#[verifier::external_body]
fn child_count(node: &tree_sitter::Node) -> (count: usize)
    ensures
        count == count_of(*node),
{
    node.child_count()
}

/// `tree_sitter::Node::child`: the child at index `i`, counted from zero,
/// or none. The contract gives the answer a name and claims only that it
/// depends on the node and the index alone; nothing is claimed of which
/// indices have a child.
#[verifier::external_body]
fn child<'a>(node: &tree_sitter::Node<'a>, i: usize) -> (below: Option<tree_sitter::Node<'a>>)
    ensures
        below == child_of(*node, i),
{
    node.child(i)
}

/// Accepts `parser` as a parser for Markdown where it has taken the
/// grammar: `taken` is what it answered when it was given the grammar.
pub fn with_language(
    parser: tree_sitter::Parser,
    taken: Result<(), tree_sitter::LanguageError>,
) -> (accepted: Result<tree_sitter::Parser, NotebookError>)
    ensures
        match accepted {
            Ok(p) => taken.is_ok() && p == parser,
            Err(e) => taken.is_err() && e == NotebookError::ParseFailure,
        },
{
    match taken {
        Ok(_) => Ok(parser),
        Err(_) => Err(NotebookError::ParseFailure),
    }
}

/// A parser for Markdown: a fresh parser that has been given the grammar.
/// A parser that refuses the grammar cannot parse anything.
pub fn parser() -> (parser: Result<tree_sitter::Parser, NotebookError>)
    ensures
        parser matches Err(e) ==> e == NotebookError::ParseFailure,
{
    let mut parser = new_parser();
    let taken = set_language(&mut parser, markdown_language());
    with_language(parser, taken)
}

/// Copies the tree below `node`. There is a copy exactly when the tree is
/// no higher than `limit` and every node hands out as many children as it
/// says it has.
fn copy_tree(node: &tree_sitter::Node, limit: usize) -> (tree: Option<SyntaxNode>)
    ensures
        match tree {
            Some(t) => t.copies(*node) && t.height() <= limit,
            None => forall|t: SyntaxNode| #[trigger] t.copies(*node) ==> t.height() > limit,
        },
    decreases limit,
{
    if limit == 0 {
        return None;
    }
    let count = child_count(node);
    let mut children: Vec<SyntaxNode> = Vec::new();
    let mut i: usize = 0;
    while i < count
        invariant
            0 <= i <= count,
            0 < limit,
            count == count_of(*node),
            children@.len() == i,
            height_of(children@) <= limit - 1,
            forall|k: usize|
                k < i ==> (#[trigger] child_of(*node, k)).is_some() && children@[k as int].copies(
                    child_of(*node, k).unwrap(),
                ),
        decreases count - i,
    {
        let handed = child(node, i);
        let below = match handed {
            Some(below) => below,
            None => {
                proof {
                    assert forall|t: SyntaxNode| #[trigger] t.copies(*node) implies t.height()
                        > limit by {
                        assert(child_of(*node, i).is_some());
                    }
                }
                return None;
            },
        };
        let ghost copied = children@;
        match copy_tree(&below, limit - 1) {
            Some(copy) => {
                children.push(copy);
                proof {
                    assert(children@.drop_last() =~= copied);
                    assert forall|k: usize| k < i + 1 implies (#[trigger] child_of(
                        *node,
                        k,
                    )).is_some() && children@[k as int].copies(child_of(*node, k).unwrap()) by {
                        if k < i {
                            assert(children@[k as int] == copied[k as int]);
                        }
                    }
                }
            },
            None => {
                proof {
                    assert forall|t: SyntaxNode| #[trigger] t.copies(*node) implies t.height()
                        > limit by {
                        assert(child_of(*node, i) == Some(below));
                        assert(t.children@[i as int].copies(below));
                        lemma_height_of_bounds(t.children@, i as int);
                    }
                }
                return None;
            },
        }
        i += 1;
    }
    let span = node_span(node);
    let copy = SyntaxNode {
        id: node_id(node),
        kind: String::from_str(node_kind(node)),
        start: span.start,
        end: span.end,
        start_byte: span.start_byte,
        end_byte: span.end_byte,
        children,
    };
    assert(copy.copies(*node));
    Some(copy)
}

/// Accepts `tree` as the syntax tree of `content` where it can stand as
/// that: it belongs to `content` and lays its nodes out as a text does.
pub fn accept_tree(tree: SyntaxNode, content: &str) -> (accepted: Result<
    SyntaxNode,
    NotebookError,
>)
    ensures
        match accepted {
            Ok(t) => t == tree && tree.is_tree_of(content@),
            Err(e) => e == NotebookError::ParseFailure && !tree.is_tree_of(content@),
        },
{
    if fits_text(&tree, content) && spans_in_order(&tree) {
        Ok(tree)
    } else {
        Err(NotebookError::ParseFailure)
    }
}

/// Reads the syntax tree of `content` out of what the parser made of it:
/// `parsed` is what `tree_sitter::Parser::parse` gave for `content`. The
/// tree that comes back is the copy of the parser's tree and can stand as
/// the tree of `content`; where the parser gave none, or one that has no
/// copy or whose copy cannot stand as the tree of `content`, the parse has
/// failed.
pub fn parse(content: &str, parsed: Option<tree_sitter::Tree>) -> (tree: Result<
    SyntaxNode,
    NotebookError,
>)
    ensures
        match tree {
            Ok(t) => copy_of(parsed, t) && t.is_tree_of(content@),
            Err(e) => e == NotebookError::ParseFailure && !readable(parsed, content@),
        },
{
    let given = match parsed {
        Some(given) => given,
        None => {
            return Err(NotebookError::ParseFailure);
        },
    };
    let root = root_node(&given);
    match copy_tree(&root, HEIGHT_LIMIT) {
        Some(tree) => {
            proof {
                assert forall|other: SyntaxNode| #[trigger]
                    copy_of(parsed, other) implies other.is_tree_of(content@) == tree.is_tree_of(
                    content@,
                ) by {
                    lemma_copies_alike(tree, other, root);
                    lemma_alike_fits(tree, other, content@);
                    lemma_alike_in_order(tree, other);
                }
            }
            accept_tree(tree, content)
        },
        None => Err(NotebookError::ParseFailure),
    }
}

/// No tree is higher than the highest of its children allows: each of
/// `nodes` is at most as high as the highest of them.
pub proof fn lemma_height_of_bounds(nodes: Seq<SyntaxNode>, i: int)
    requires
        0 <= i < nodes.len(),
    ensures
        nodes[i].height() <= height_of(nodes),
    decreases nodes.len(),
{
    if i < nodes.len() - 1 {
        lemma_height_of_bounds(nodes.drop_last(), i);
    }
}

/// Two copies of one tree of the parser show the same.
pub proof fn lemma_copies_alike(first: SyntaxNode, second: SyntaxNode, node: tree_sitter::Node)
    requires
        first.copies(node),
        second.copies(node),
    ensures
        first.alike(second),
    decreases first,
{
    let below = first.children@;
    assert forall|i: int| 0 <= i < below.len() implies (#[trigger] below[i]).alike(
        second.children@[i],
    ) by {
        let below = child_of(node, i as usize).unwrap();
        assert(child_of(node, i as usize).is_some());
        assert(second.children@[i].copies(below));
        lemma_copies_alike(first.children@[i], second.children@[i], below);
    }
}

/// Of trees that show the same, both lay their nodes out as a text does or
/// neither does.
pub proof fn lemma_alike_in_order(first: SyntaxNode, second: SyntaxNode)
    requires
        first.alike(second),
    ensures
        first.in_order() == second.in_order(),
    decreases first,
{
    assert forall|i: int| 0 <= i < first.children@.len() implies (
    #[trigger] first.children@[i]).in_order() == second.children@[i].in_order() by {
        lemma_alike_in_order(first.children@[i], second.children@[i]);
    }
    if first.in_order() {
        assert forall|i: int| 0 <= i < second.children@.len() implies (
        #[trigger] second.children@[i]).in_order() && lies_between(
            second.children@[i],
            second,
            second,
        ) by {
            assert(first.children@[i].alike(second.children@[i]));
            assert(first.children@[i].in_order());
        }
        assert forall|i: int, j: int| 0 <= i < j < second.children@.len() implies ends_before(
            #[trigger] second.children@[i],
            #[trigger] second.children@[j],
        ) by {
            assert(ends_before(first.children@[i], first.children@[j]));
            assert(first.children@[i].alike(second.children@[i]));
            assert(first.children@[j].alike(second.children@[j]));
        }
    }
    if second.in_order() {
        assert forall|i: int| 0 <= i < first.children@.len() implies (
        #[trigger] first.children@[i]).in_order() && lies_between(
            first.children@[i],
            first,
            first,
        ) by {
            assert(first.children@[i].alike(second.children@[i]));
            assert(second.children@[i].in_order());
        }
        assert forall|i: int, j: int| 0 <= i < j < first.children@.len() implies ends_before(
            #[trigger] first.children@[i],
            #[trigger] first.children@[j],
        ) by {
            assert(ends_before(second.children@[i], second.children@[j]));
            assert(first.children@[i].alike(second.children@[i]));
            assert(first.children@[j].alike(second.children@[j]));
        }
    }
}

/// Trees that show the same belong to the same texts.
pub proof fn lemma_alike_fits(first: SyntaxNode, second: SyntaxNode, text: Seq<char>)
    requires
        first.alike(second),
    ensures
        first.fits(text) == second.fits(text),
    decreases first,
{
    let below = first.children@;
    assert forall|i: int| 0 <= i < below.len() implies (#[trigger] below[i]).fits(text)
        == second.children@[i].fits(text) by {
        lemma_alike_fits(first.children@[i], second.children@[i], text);
    }
    if first.fits(text) {
        assert forall|i: int| 0 <= i < second.children@.len() implies (
        #[trigger] second.children@[i]).fits(text) by {
            assert(first.children@[i].fits(text));
        }
    }
    if second.fits(text) {
        assert forall|i: int| 0 <= i < first.children@.len() implies (
        #[trigger] first.children@[i]).fits(text) by {
            assert(second.children@[i].fits(text));
        }
    }
}

} // verus!
