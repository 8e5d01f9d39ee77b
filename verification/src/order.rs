//! The order of spans in a syntax tree: where a tree lays its nodes out as
//! a text does, its code blocks follow one another without overlap, and an
//! output block lies behind the block it belongs to.

use crate::actions::pairing;
use crate::blocks::{code_blocks_of, first_of_kind};
use crate::syntax::{Point, SyntaxNode};
use vstd::prelude::*;

verus! {

impl Point {
    /// Whether the point is `other` or comes before it in the text.
    pub open spec fn at_or_before(self, other: Point) -> bool {
        self.row < other.row || (self.row == other.row && self.column <= other.column)
    }
}

/// Whether `first` has ended where `second` begins, or earlier.
pub open spec fn ends_before(first: SyntaxNode, second: SyntaxNode) -> bool {
    first.end_byte <= second.start_byte && first.end.at_or_before(second.start)
}

/// Whether `inner` lies between the start of `from` and the end of `to`.
pub open spec fn lies_between(inner: SyntaxNode, from: SyntaxNode, to: SyntaxNode) -> bool {
    &&& from.start_byte <= inner.start_byte
    &&& inner.end_byte <= to.end_byte
    &&& from.start.at_or_before(inner.start)
    &&& inner.end.at_or_before(to.end)
}

/// Whether each of `nodes` has ended where the next begins, or earlier.
pub open spec fn one_after_another(nodes: Seq<SyntaxNode>) -> bool {
    forall|i: int, j: int|
        0 <= i < j < nodes.len() ==> ends_before(#[trigger] nodes[i], #[trigger] nodes[j])
}

impl SyntaxNode {
    /// Whether the tree lays its nodes out as a text does: no node ends
    /// before it begins, the children of a node lie within it, one after
    /// another.
    pub open spec fn in_order(self) -> bool
        decreases self,
    {
        &&& self.start_byte <= self.end_byte
        &&& self.start.at_or_before(self.end)
        &&& forall|i: int|
            0 <= i < self.children@.len() ==> (#[trigger] self.children@[i]).in_order()
                && lies_between(self.children@[i], self, self)
        &&& one_after_another(self.children@)
    }
}

/// Whether `a` is `b` or comes before it in the text.
pub fn at_or_before(a: Point, b: Point) -> (before: bool)
    ensures
        before == a.at_or_before(b),
{
    a.row < b.row || (a.row == b.row && a.column <= b.column)
}

/// Whether the tree below `node` lays its nodes out as a text does.
pub fn spans_in_order(node: &SyntaxNode) -> (ordered: bool)
    ensures
        ordered == node.in_order(),
    decreases node,
{
    if node.start_byte > node.end_byte || !at_or_before(node.start, node.end) {
        return false;
    }
    let mut i: usize = 0;
    while i < node.children.len()
        invariant
            0 <= i <= node.children.len(),
            forall|k: int|
                0 <= k < i ==> (#[trigger] node.children@[k]).in_order() && lies_between(
                    node.children@[k],
                    *node,
                    *node,
                ),
            one_after_another(node.children@.take(i as int)),
        decreases node.children.len() - i,
    {
        let child = &node.children[i];
        if !spans_in_order(child) || child.start_byte < node.start_byte || child.end_byte
            > node.end_byte || !at_or_before(node.start, child.start) || !at_or_before(
            child.end,
            node.end,
        ) {
            return false;
        }
        if i > 0 {
            let earlier = &node.children[i - 1];
            if earlier.end_byte > child.start_byte || !at_or_before(earlier.end, child.start) {
                assert(!ends_before(node.children@[i - 1], node.children@[i as int]));
                return false;
            }
        }
        proof {
            let longer = node.children@.take(i + 1);
            let shorter = node.children@.take(i as int);
            assert forall|a: int, b: int| 0 <= a < b < longer.len() implies ends_before(
                #[trigger] longer[a],
                #[trigger] longer[b],
            ) by {
                if b < i {
                    assert(ends_before(shorter[a], shorter[b]));
                } else if a < i - 1 {
                    assert(ends_before(shorter[a], shorter[i - 1]));
                    assert(node.children@[i - 1].in_order());
                }
            }
        }
        i += 1;
    }
    assert(node.children@.take(i as int) =~= node.children@);
    true
}

/// In a tree that lays its nodes out as a text does, the text of a child
/// lies within its parent: the content of a code block lies inside the
/// block.
pub proof fn lemma_child_within(node: SyntaxNode, kind: Seq<char>)
    requires
        node.in_order(),
    ensures
        node.child_of_kind(kind) matches Some(child) ==> lies_between(child, node, node),
{
    if node.child_of_kind(kind).is_some() {
        let i = choose|i: int| first_of_kind(node.children@, kind, i);
        assert(node.children@[i].in_order());
    }
}

/// Where `nodes` are laid out as a text lays them out, one after another,
/// the code blocks at and below them lie between the first and the last of
/// them, one after another.
pub proof fn lemma_code_blocks_of_in_order(nodes: Seq<SyntaxNode>)
    requires
        forall|k: int| 0 <= k < nodes.len() ==> (#[trigger] nodes[k]).in_order(),
        one_after_another(nodes),
    ensures
        forall|k: int|
            0 <= k < code_blocks_of(nodes).len() ==> lies_between(
                #[trigger] code_blocks_of(nodes)[k],
                nodes.first(),
                nodes.last(),
            ),
        one_after_another(code_blocks_of(nodes)),
    decreases nodes, 0nat,
{
    if nodes.len() > 0 {
        let found = code_blocks_of(nodes);
        let head = nodes.drop_last();
        let before = code_blocks_of(head);
        let below = nodes.last().code_blocks();
        assert forall|i: int, j: int| 0 <= i < j < head.len() implies ends_before(
            #[trigger] head[i],
            #[trigger] head[j],
        ) by {
            assert(ends_before(nodes[i], nodes[j]));
        }
        lemma_code_blocks_of_in_order(head);
        lemma_code_blocks_in_order(nodes.last());
        assert forall|k: int| 0 <= k < found.len() implies lies_between(
            #[trigger] found[k],
            nodes.first(),
            nodes.last(),
        ) by {
            if k < before.len() {
                assert(found[k] == before[k]);
                assert(lies_between(before[k], head.first(), head.last()));
                assert(head.first() == nodes[0]);
                assert(head.last() == nodes[nodes.len() - 2]);
                assert(ends_before(nodes[nodes.len() - 2], nodes[nodes.len() - 1]));
                assert(nodes[nodes.len() - 1].in_order());
            } else {
                assert(found[k] == below[k - before.len()]);
                assert(lies_between(below[k - before.len()], nodes.last(), nodes.last()));
                if nodes.len() > 1 {
                    assert(ends_before(nodes[0], nodes[nodes.len() - 1]));
                    assert(nodes[0].in_order());
                }
            }
        }
        assert forall|i: int, j: int| 0 <= i < j < found.len() implies ends_before(
            #[trigger] found[i],
            #[trigger] found[j],
        ) by {
            if j < before.len() {
                assert(found[i] == before[i] && found[j] == before[j]);
                assert(ends_before(before[i], before[j]));
            } else if i >= before.len() {
                assert(found[i] == below[i - before.len()]);
                assert(found[j] == below[j - before.len()]);
                assert(ends_before(below[i - before.len()], below[j - before.len()]));
            } else {
                assert(found[i] == before[i]);
                assert(found[j] == below[j - before.len()]);
                assert(lies_between(before[i], head.first(), head.last()));
                assert(lies_between(below[j - before.len()], nodes.last(), nodes.last()));
                assert(head.last() == nodes[nodes.len() - 2]);
                assert(ends_before(nodes[nodes.len() - 2], nodes[nodes.len() - 1]));
            }
        }
    }
}

/// In a tree that lays its nodes out as a text does, the code blocks lie
/// within the tree, one after another: no two of them overlap, and they
/// come in the order of the text.
pub proof fn lemma_code_blocks_in_order(tree: SyntaxNode)
    requires
        tree.in_order(),
    ensures
        forall|k: int|
            0 <= k < tree.code_blocks().len() ==> lies_between(
                #[trigger] tree.code_blocks()[k],
                tree,
                tree,
            ),
        one_after_another(tree.code_blocks()),
    decreases tree, 1nat,
{
    let found = tree.code_blocks();
    if tree.is_code_block() {
        assert(found == seq![tree]);
        assert forall|k: int| 0 <= k < found.len() implies lies_between(
            #[trigger] found[k],
            tree,
            tree,
        ) by {
            assert(found[k] == tree);
        }
    } else {
        let children = tree.children@;
        assert(found == code_blocks_of(children));
        lemma_code_blocks_of_in_order(children);
        assert forall|k: int| 0 <= k < found.len() implies lies_between(
            #[trigger] found[k],
            tree,
            tree,
        ) by {
            assert(lies_between(code_blocks_of(children)[k], children.first(), children.last()));
            assert(children.len() > 0);
            assert(lies_between(children[0], tree, tree));
            assert(lies_between(children[children.len() - 1], tree, tree));
            assert(children[0].in_order());
            assert(children[children.len() - 1].in_order());
        }
    }
}

/// Of blocks that come one after another, an output block lies behind the
/// source it is paired with.
pub proof fn lemma_pairing_in_order(blocks: Seq<SyntaxNode>, text: Seq<char>)
    requires
        one_after_another(blocks),
    ensures
        forall|i: int|
            0 <= i < pairing(blocks, text).len() && (#[trigger] pairing(blocks, text)[i]).1.is_some()
                ==> ends_before(pairing(blocks, text)[i].0, pairing(blocks, text)[i].1.unwrap()),
    decreases blocks.len(),
{
    let actions = pairing(blocks, text);
    if blocks.len() > 0 {
        let taken: int = if blocks.len() >= 2 && blocks[1].is_output(text) { 2 } else { 1 };
        let rest = blocks.skip(taken);
        assert forall|i: int, j: int| 0 <= i < j < rest.len() implies ends_before(
            #[trigger] rest[i],
            #[trigger] rest[j],
        ) by {
            assert(ends_before(blocks[i + taken], blocks[j + taken]));
        }
        lemma_pairing_in_order(rest, text);
        assert forall|i: int| 0 <= i < actions.len() && (#[trigger] actions[i]).1.is_some()
            implies ends_before(actions[i].0, actions[i].1.unwrap()) by {
            if i == 0 {
                if taken == 2 {
                    assert(ends_before(blocks[0], blocks[1]));
                }
            } else {
                assert(actions[i] == pairing(rest, text)[i - 1]);
            }
        }
    }
}

/// In a document whose tree lays its nodes out as a text does, the output
/// block of an action lies behind its source: the range that a rerun
/// replaces and the span of the code that is run have no text in common.
pub proof fn lemma_output_behind_source(tree: SyntaxNode, text: Seq<char>, i: int)
    requires
        tree.in_order(),
        0 <= i < pairing(tree.code_blocks(), text).len(),
    ensures
        pairing(tree.code_blocks(), text)[i].1 matches Some(output) ==> ends_before(
            pairing(tree.code_blocks(), text)[i].0,
            output,
        ),
{
    lemma_code_blocks_in_order(tree);
    lemma_pairing_in_order(tree.code_blocks(), text);
}

} // verus!
