//! The fenced code blocks of a document: where they are, how they are
//! labelled and what they hold.

use crate::syntax::{preorder_of, SyntaxNode};
use crate::text::{same_text, slice_text, sliceable, text_between};
use vstd::prelude::*;

verus! {

/// The kind of a fenced code block.
pub const FENCED_CODE_BLOCK: &'static str = "fenced_code_block";

/// The kind of the node that holds a fenced block's info string.
pub const INFO_STRING: &'static str = "info_string";

/// The kind of the node that holds a fenced block's content.
pub const CODE_FENCE_CONTENT: &'static str = "code_fence_content";

impl SyntaxNode {
    /// Whether the node is a fenced code block.
    pub open spec fn is_code_block(self) -> bool {
        self.kind@ == FENCED_CODE_BLOCK@
    }

    /// The first child of the node that is of kind `kind`.
    pub open spec fn child_of_kind(self, kind: Seq<char>) -> Option<SyntaxNode> {
        let children = self.children@;
        if exists|i: int| first_of_kind(children, kind, i) {
            Some(children[choose|i: int| first_of_kind(children, kind, i)])
        } else {
            None
        }
    }

    /// The text of the first child of kind `kind`, and no text where the
    /// node has no such child.
    pub open spec fn child_text(self, kind: Seq<char>, text: Seq<char>) -> Seq<char> {
        match self.child_of_kind(kind) {
            Some(child) => slice_text(text, child.start_byte as int, child.end_byte as int),
            None => Seq::empty(),
        }
    }

    /// Whether the text of the first child of kind `kind` can be taken out
    /// of `text`.
    pub open spec fn child_readable(self, kind: Seq<char>, text: Seq<char>) -> bool {
        self.child_of_kind(kind) matches Some(child) ==> sliceable(
            text,
            child.start_byte as int,
            child.end_byte as int,
        )
    }

    /// The info string of a fenced block within `text`: what follows the
    /// opening fence on its line.
    pub open spec fn info_string(self, text: Seq<char>) -> Seq<char> {
        self.child_text(INFO_STRING@, text)
    }

    /// The content of a fenced block within `text`: what stands between its
    /// fences.
    pub open spec fn code_content(self, text: Seq<char>) -> Seq<char> {
        self.child_text(CODE_FENCE_CONTENT@, text)
    }

    /// The fenced code blocks at and below the node, in document order. What
    /// lies inside a fenced block is not looked at.
    pub open spec fn code_blocks(self) -> Seq<SyntaxNode>
        decreases self,
    {
        if self.is_code_block() {
            seq![self]
        } else {
            code_blocks_of(self.children@)
        }
    }
}

/// The fenced code blocks at and below `nodes`, in document order.
pub open spec fn code_blocks_of(nodes: Seq<SyntaxNode>) -> Seq<SyntaxNode>
    decreases nodes,
{
    if nodes.len() == 0 {
        Seq::empty()
    } else {
        code_blocks_of(nodes.drop_last()) + nodes.last().code_blocks()
    }
}

/// `nodes[i]` is of kind `kind`, and no node before it is.
pub open spec fn first_of_kind(nodes: Seq<SyntaxNode>, kind: Seq<char>, i: int) -> bool {
    &&& 0 <= i < nodes.len()
    &&& nodes[i].kind@ == kind
    &&& forall|j: int| 0 <= j < i ==> (#[trigger] nodes[j]).kind@ != kind
}

/// No node of `nodes` is of kind `kind`.
pub open spec fn none_of_kind(nodes: Seq<SyntaxNode>, kind: Seq<char>) -> bool {
    forall|j: int| 0 <= j < nodes.len() ==> (#[trigger] nodes[j]).kind@ != kind
}

/// The nodes that `refs` point to.
pub open spec fn nodes_of(refs: Seq<&SyntaxNode>) -> Seq<SyntaxNode> {
    refs.map_values(|node: &SyntaxNode| *node)
}

/// The first child of `node` that is of kind `kind`.
pub fn first_child_of_kind<'a>(node: &'a SyntaxNode, kind: &str) -> (child: Option<&'a SyntaxNode>)
    ensures
        match child {
            Some(c) => node.child_of_kind(kind@) == Some(*c),
            None => node.child_of_kind(kind@).is_none(),
        },
        child.is_none() <==> none_of_kind(node.children@, kind@),
{
    let mut i: usize = 0;
    while i < node.children.len()
        invariant
            0 <= i <= node.children.len(),
            forall|j: int| 0 <= j < i ==> (#[trigger] node.children@[j]).kind@ != kind@,
        decreases node.children.len() - i,
    {
        if same_text(node.children[i].kind.as_str(), kind) {
            assert(first_of_kind(node.children@, kind@, i as int));
            proof {
                let k = choose|k: int| first_of_kind(node.children@, kind@, k);
                if k < i {
                    assert(node.children@[k].kind@ != kind@);
                } else if i < k {
                    assert(node.children@[i as int].kind@ != kind@);
                }
            }
            return Some(&node.children[i]);
        }
        i += 1;
    }
    proof {
        if exists|k: int| first_of_kind(node.children@, kind@, k) {
            let k = choose|k: int| first_of_kind(node.children@, kind@, k);
            assert(node.children@[k].kind@ != kind@);
        }
    }
    None
}

/// The text of the first child of `node` that is of kind `kind`.
fn text_of_child(node: &SyntaxNode, kind: &str, content: &str) -> (text: String)
    requires
        node.child_readable(kind@, content@),
    ensures
        text@ == node.child_text(kind@, content@),
{
    match first_child_of_kind(node, kind) {
        Some(child) => match text_between(content, child.start_byte, child.end_byte) {
            Some(text) => text.to_owned(),
            None => String::new(),
        },
        None => String::new(),
    }
}

/// The info string of the fenced block `node` in `content`, empty where the
/// block has none.
pub fn info_string(node: &SyntaxNode, content: &str) -> (label: String)
    requires
        node.child_readable(INFO_STRING@, content@),
    ensures
        label@ == node.info_string(content@),
{
    text_of_child(node, INFO_STRING, content)
}

/// The content of the fenced block `node` in `content`, empty where the
/// block has none.
pub fn code_content(node: &SyntaxNode, content: &str) -> (code: String)
    requires
        node.child_readable(CODE_FENCE_CONTENT@, content@),
    ensures
        code@ == node.code_content(content@),
{
    text_of_child(node, CODE_FENCE_CONTENT, content)
}

/// Appends to `blocks` the fenced code blocks at and below `node`, in
/// document order.
pub fn collect_codeblocks<'a>(node: &'a SyntaxNode, blocks: &mut Vec<&'a SyntaxNode>)
    ensures
        nodes_of(final(blocks)@) == nodes_of(old(blocks)@) + node.code_blocks(),
    decreases node,
{
    if same_text(node.kind.as_str(), FENCED_CODE_BLOCK) {
        blocks.push(node);
        assert(nodes_of(blocks@) =~= nodes_of(old(blocks)@) + seq![*node]);
        return ;
    }
    let mut i: usize = 0;
    while i < node.children.len()
        invariant
            0 <= i <= node.children.len(),
            nodes_of(blocks@) == nodes_of(old(blocks)@) + code_blocks_of(
                node.children@.take(i as int),
            ),
        decreases node.children.len() - i,
    {
        let ghost before = nodes_of(blocks@);
        collect_codeblocks(&node.children[i], blocks);
        proof {
            let longer = node.children@.take(i + 1);
            assert(longer.drop_last() =~= node.children@.take(i as int));
            assert(longer.last() == node.children@[i as int]);
            assert(nodes_of(blocks@) =~= nodes_of(old(blocks)@) + code_blocks_of(longer));
        }
        i += 1;
    }
    assert(node.children@.take(i as int) =~= node.children@);
}

/// Every fenced code block found at or below `nodes` is a fenced code block
/// and one of the nodes of their pre-order listing.
pub proof fn lemma_code_blocks_of_in_tree(nodes: Seq<SyntaxNode>)
    ensures
        forall|i: int|
            0 <= i < code_blocks_of(nodes).len() ==> (#[trigger] code_blocks_of(
                nodes,
            )[i]).is_code_block() && preorder_of(nodes).contains(code_blocks_of(nodes)[i]),
    decreases nodes, 0nat,
{
    if nodes.len() > 0 {
        let found = code_blocks_of(nodes);
        let before = code_blocks_of(nodes.drop_last());
        let below = nodes.last().code_blocks();
        let listed = preorder_of(nodes);
        let listed_before = preorder_of(nodes.drop_last());
        let listed_below = nodes.last().preorder();
        lemma_code_blocks_of_in_tree(nodes.drop_last());
        lemma_code_blocks_in_tree(nodes.last());
        assert forall|i: int| 0 <= i < found.len() implies (#[trigger] found[i]).is_code_block()
            && listed.contains(found[i]) by {
            if i < before.len() {
                assert(found[i] == before[i]);
                assert(listed_before.contains(before[i]));
                let k = listed_before.index_of(before[i]);
                assert(listed[k] == listed_before[k]);
            } else {
                assert(found[i] == below[i - before.len()]);
                assert(listed_below.contains(below[i - before.len()]));
                let k = listed_below.index_of(below[i - before.len()]);
                assert(listed[listed_before.len() + k] == listed_below[k]);
            }
        }
    }
}

/// Every fenced code block found in a tree is a fenced code block and one of
/// the nodes of the tree.
pub proof fn lemma_code_blocks_in_tree(tree: SyntaxNode)
    ensures
        forall|i: int|
            0 <= i < tree.code_blocks().len() ==> (#[trigger] tree.code_blocks()[i]).is_code_block()
                && tree.preorder().contains(tree.code_blocks()[i]),
    decreases tree, 1nat,
{
    let found = tree.code_blocks();
    let listed = tree.preorder();
    if tree.is_code_block() {
        assert forall|i: int| 0 <= i < found.len() implies (#[trigger] found[i]).is_code_block()
            && listed.contains(found[i]) by {
            assert(found[i] == tree);
            assert(listed[0] == tree);
        }
    } else {
        lemma_code_blocks_of_in_tree(tree.children@);
        let below = preorder_of(tree.children@);
        assert(found == code_blocks_of(tree.children@));
        assert forall|i: int| 0 <= i < found.len() implies (#[trigger] found[i]).is_code_block()
            && listed.contains(found[i]) by {
            assert(below.contains(code_blocks_of(tree.children@)[i]));
            let k = below.index_of(found[i]);
            assert(listed[k + 1] == below[k]);
        }
    }
}

/// In a tree that belongs to `text`, the text of any child of the root can
/// be taken out of `text`.
pub proof fn lemma_fits_child_readable(node: SyntaxNode, kind: Seq<char>, text: Seq<char>)
    requires
        node.fits(text),
    ensures
        node.child_readable(kind, text),
{
    if node.child_of_kind(kind).is_some() {
        let i = choose|i: int| first_of_kind(node.children@, kind, i);
        assert(node.children@[i].fits(text));
    }
}

/// Where every one of `nodes` belongs to `text`, so does every fenced code
/// block at or below them.
pub proof fn lemma_code_blocks_of_fit(nodes: Seq<SyntaxNode>, text: Seq<char>)
    requires
        forall|k: int| 0 <= k < nodes.len() ==> (#[trigger] nodes[k]).fits(text),
    ensures
        forall|i: int|
            0 <= i < code_blocks_of(nodes).len() ==> (#[trigger] code_blocks_of(nodes)[i]).fits(
                text,
            ),
    decreases nodes, 0nat,
{
    if nodes.len() > 0 {
        let before = code_blocks_of(nodes.drop_last());
        let below = nodes.last().code_blocks();
        lemma_code_blocks_of_fit(nodes.drop_last(), text);
        lemma_code_blocks_fit(nodes.last(), text);
        assert forall|i: int| 0 <= i < code_blocks_of(nodes).len() implies (
        #[trigger] code_blocks_of(nodes)[i]).fits(text) by {
            if i < before.len() {
                assert(code_blocks_of(nodes)[i] == before[i]);
            } else {
                assert(code_blocks_of(nodes)[i] == below[i - before.len()]);
            }
        }
    }
}

/// Every fenced code block of a tree that belongs to `text` belongs to it.
pub proof fn lemma_code_blocks_fit(tree: SyntaxNode, text: Seq<char>)
    requires
        tree.fits(text),
    ensures
        forall|i: int|
            0 <= i < tree.code_blocks().len() ==> (#[trigger] tree.code_blocks()[i]).fits(text),
    decreases tree, 1nat,
{
    if tree.is_code_block() {
        assert(tree.code_blocks() == seq![tree]);
        assert forall|i: int| 0 <= i < tree.code_blocks().len() implies (
        #[trigger] tree.code_blocks()[i]).fits(text) by {
            assert(tree.code_blocks()[i] == tree);
        }
    } else {
        assert(tree.code_blocks() == code_blocks_of(tree.children@));
        lemma_code_blocks_of_fit(tree.children@, text);
    }
}

} // verus!
