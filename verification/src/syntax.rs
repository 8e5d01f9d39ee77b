//! The syntax tree of one document snapshot, and the addresses of its nodes.

use crate::text::{sliceable, text_between};
use vstd::prelude::*;

verus! {

/// A zero-based row and column in the text of a document.
#[derive(Clone, Copy, Debug, PartialEq, Eq, Structural)]
pub struct Point {
    pub row: usize,
    pub column: usize,
}

/// One node of a syntax tree, with the nodes below it.
///
/// A node is never changed once its tree is built. Its `id` is its address:
/// it tells the node apart within the tree it belongs to, and means nothing
/// in any other tree.
#[derive(Debug, PartialEq, Eq)]
pub struct SyntaxNode {
    pub id: usize,
    /// The grammar's tag for the node, such as `fenced_code_block`.
    pub kind: String,
    pub start: Point,
    pub end: Point,
    /// Offset of the node's first byte in the text.
    pub start_byte: usize,
    /// Offset just past the node's last byte in the text.
    pub end_byte: usize,
    pub children: Vec<SyntaxNode>,
}

impl SyntaxNode {
    /// The node and everything below it, parents before children and
    /// earlier siblings before later ones.
    pub open spec fn preorder(self) -> Seq<SyntaxNode>
        decreases self,
    {
        seq![self] + preorder_of(self.children@)
    }

    /// Whether the tree belongs to `text`: the span of every node can be
    /// taken out of it.
    pub open spec fn fits(self, text: Seq<char>) -> bool
        decreases self,
    {
        &&& sliceable(text, self.start_byte as int, self.end_byte as int)
        &&& forall|k: int|
            0 <= k < self.children@.len() ==> (#[trigger] self.children@[k]).fits(text)
    }

    /// The node that the address `id` stands for in this tree: the first one
    /// in pre-order that carries it.
    pub open spec fn resolve(self, id: usize) -> Option<SyntaxNode> {
        let nodes = self.preorder();
        if exists|i: int| first_with_id(nodes, id, i) {
            Some(nodes[choose|i: int| first_with_id(nodes, id, i)])
        } else {
            None
        }
    }
}

/// The pre-order listings of `nodes`, one after the other.
pub open spec fn preorder_of(nodes: Seq<SyntaxNode>) -> Seq<SyntaxNode>
    decreases nodes,
{
    if nodes.len() == 0 {
        Seq::empty()
    } else {
        preorder_of(nodes.drop_last()) + nodes.last().preorder()
    }
}

/// `nodes[i]` carries `id`, and no node before it does.
pub open spec fn first_with_id(nodes: Seq<SyntaxNode>, id: usize, i: int) -> bool {
    &&& 0 <= i < nodes.len()
    &&& nodes[i].id == id
    &&& forall|j: int| 0 <= j < i ==> (#[trigger] nodes[j]).id != id
}

/// No node of `nodes` carries `id`.
pub open spec fn none_with_id(nodes: Seq<SyntaxNode>, id: usize) -> bool {
    forall|j: int| 0 <= j < nodes.len() ==> (#[trigger] nodes[j]).id != id
}

/// No two of `nodes` carry the same id.
pub open spec fn distinct_ids(nodes: Seq<SyntaxNode>) -> bool {
    forall|i: int, j: int|
        0 <= i < j < nodes.len() ==> (#[trigger] nodes[i]).id != (#[trigger] nodes[j]).id
}

/// Whether the tree below `node` belongs to `content`.
pub fn fits_text(node: &SyntaxNode, content: &str) -> (fits: bool)
    ensures
        fits == node.fits(content@),
    decreases node,
{
    if text_between(content, node.start_byte, node.end_byte).is_none() {
        return false;
    }
    let mut i: usize = 0;
    while i < node.children.len()
        invariant
            0 <= i <= node.children.len(),
            forall|k: int| 0 <= k < i ==> (#[trigger] node.children@[k]).fits(content@),
        decreases node.children.len() - i,
    {
        if !fits_text(&node.children[i], content) {
            return false;
        }
        i += 1;
    }
    true
}

/// Finds the node that the address `id` stands for, walking the tree below
/// `node` depth first.
pub fn node_by_id<'a>(node: &'a SyntaxNode, id: usize) -> (found: Option<&'a SyntaxNode>)
    ensures
        match found {
            Some(n) => node.resolve(id) == Some(*n),
            None => node.resolve(id).is_none(),
        },
        found.is_none() <==> none_with_id(node.preorder(), id),
        found matches Some(n) ==> n.id == id && node.preorder().contains(*n),
    decreases node,
{
    let ghost nodes = node.preorder();
    if node.id == id {
        assert(first_with_id(nodes, id, 0));
        return Some(node);
    }
    let mut i: usize = 0;
    while i < node.children.len()
        invariant
            0 <= i <= node.children.len(),
            nodes == node.preorder(),
            node.id != id,
            none_with_id(preorder_of(node.children@.take(i as int)), id),
        decreases node.children.len() - i,
    {
        let ghost before = preorder_of(node.children@.take(i as int));
        let ghost below = node.children[i as int].preorder();
        proof {
            lemma_preorder_of_prefix(node.children@, i as int);
            lemma_preorder_of_prefix(node.children@, i + 1);
        }
        match node_by_id(&node.children[i], id) {
            Some(n) => {
                proof {
                    let k = choose|k: int| first_with_id(below, id, k);
                    let at = 1 + before.len() + k;
                    let all = preorder_of(node.children@);
                    let after = preorder_of(node.children@.take(i + 1));
                    assert(after == all.subrange(0, after.len() as int));
                    assert(nodes[at] == after[before.len() + k]);
                    assert forall|j: int| 0 <= j < at implies (#[trigger] nodes[j]).id != id by {
                        if j == 0 {
                        } else if j < 1 + before.len() {
                            assert(nodes[j] == before[j - 1]);
                        } else {
                            assert(nodes[j] == after[j - 1]);
                            assert(nodes[j] == below[j - 1 - before.len()]);
                        }
                    }
                    assert(first_with_id(nodes, id, at));
                }
                return Some(n);
            },
            None => {
                proof {
                    let after = preorder_of(node.children@.take(i + 1));
                    assert forall|j: int| 0 <= j < after.len() implies (#[trigger] after[j]).id
                        != id by {
                        if j < before.len() {
                            assert(after[j] == before[j]);
                        } else {
                            assert(after[j] == below[j - before.len()]);
                        }
                    }
                }
            },
        }
        i += 1;
    }
    proof {
        assert(node.children@.take(i as int) =~= node.children@);
        assert forall|j: int| 0 <= j < nodes.len() implies (#[trigger] nodes[j]).id != id by {
            if j > 0 {
                assert(nodes[j] == preorder_of(node.children@)[j - 1]);
            }
        }
    }
    None
}

/// The listing of the first `i + 1` of `nodes` is the listing of the first
/// `i` followed by that of `nodes[i]`, and a prefix of the whole listing.
pub proof fn lemma_preorder_of_prefix(nodes: Seq<SyntaxNode>, i: int)
    requires
        0 <= i <= nodes.len(),
    ensures
        preorder_of(nodes.take(i)).is_prefix_of(preorder_of(nodes)),
        i < nodes.len() ==> preorder_of(nodes.take(i + 1)) == preorder_of(nodes.take(i))
            + nodes[i].preorder(),
    decreases nodes.len() - i,
{
    if i == nodes.len() {
        assert(nodes.take(i) =~= nodes);
    } else {
        let longer = nodes.take(i + 1);
        assert(longer.drop_last() =~= nodes.take(i));
        assert(longer.last() == nodes[i]);
        lemma_preorder_of_prefix(nodes, i + 1);
    }
}

/// Among nodes of which one carries `id`, one is the first to carry it.
pub proof fn lemma_first_with_id_exists(nodes: Seq<SyntaxNode>, id: usize, i: int)
    requires
        0 <= i < nodes.len(),
        nodes[i].id == id,
    ensures
        exists|k: int| 0 <= k <= i && first_with_id(nodes, id, k),
    decreases i,
{
    if exists|j: int| 0 <= j < i && (#[trigger] nodes[j]).id == id {
        let j = choose|j: int| 0 <= j < i && (#[trigger] nodes[j]).id == id;
        lemma_first_with_id_exists(nodes, id, j);
    } else {
        assert(first_with_id(nodes, id, i));
    }
}

/// What an address resolves to: the first node in pre-order that carries
/// it, and nothing exactly when no node of the tree carries it.
pub proof fn lemma_resolve(tree: SyntaxNode, id: usize)
    ensures
        match tree.resolve(id) {
            Some(n) => exists|i: int|
                first_with_id(tree.preorder(), id, i) && tree.preorder()[i] == n,
            None => none_with_id(tree.preorder(), id),
        },
{
    let nodes = tree.preorder();
    if !(exists|i: int| first_with_id(nodes, id, i)) {
        assert forall|j: int| 0 <= j < nodes.len() implies (#[trigger] nodes[j]).id != id by {
            if nodes[j].id == id {
                lemma_first_with_id_exists(nodes, id, j);
            }
        }
    }
}

/// Resolving one address in one tree gives one node: whatever two
/// resolutions of it find, they find the same.
pub proof fn lemma_resolve_twice(
    tree: SyntaxNode,
    id: usize,
    i: int,
    j: int,
)
    requires
        first_with_id(tree.preorder(), id, i),
        first_with_id(tree.preorder(), id, j),
    ensures
        i == j,
        tree.resolve(id) == Some(tree.preorder()[i]),
{
    let nodes = tree.preorder();
    let k = choose|k: int| first_with_id(nodes, id, k);
    assert(k == i) by {
        if k < i {
            assert(nodes[k].id != id);
        } else if i < k {
            assert(nodes[i].id != id);
        }
    }
    if i < j {
        assert(nodes[i].id != id);
    } else if j < i {
        assert(nodes[j].id != id);
    }
}

/// The address of any node of a tree resolves in that tree, to a node that
/// carries it.
pub proof fn lemma_resolve_own_address(tree: SyntaxNode, i: int)
    requires
        0 <= i < tree.preorder().len(),
    ensures
        tree.resolve(tree.preorder()[i].id) matches Some(n) && n.id == tree.preorder()[i].id
            && tree.preorder().contains(n),
{
    let nodes = tree.preorder();
    lemma_first_with_id_exists(nodes, nodes[i].id, i);
    lemma_resolve(tree, nodes[i].id);
}

/// In a tree whose nodes carry distinct ids, the address of a node resolves
/// to that very node.
pub proof fn lemma_resolve_exact(tree: SyntaxNode, i: int)
    requires
        distinct_ids(tree.preorder()),
        0 <= i < tree.preorder().len(),
    ensures
        tree.resolve(tree.preorder()[i].id) == Some(tree.preorder()[i]),
{
    let nodes = tree.preorder();
    assert forall|j: int| 0 <= j < i implies (#[trigger] nodes[j]).id != nodes[i].id by {
        assert(nodes[j].id != nodes[i].id);
    }
    assert(first_with_id(nodes, nodes[i].id, i));
    lemma_resolve_twice(tree, nodes[i].id, i, i);
}

/// An address resolves only within the tree it is asked of: to nothing
/// where no node of that tree carries it, and otherwise to a node of that
/// tree that carries it, never to a node of another tree.
pub proof fn lemma_resolve_foreign_address(tree: SyntaxNode, id: usize)
    ensures
        none_with_id(tree.preorder(), id) ==> tree.resolve(id).is_none(),
        tree.resolve(id) matches Some(n) ==> n.id == id && tree.preorder().contains(n),
{
    lemma_resolve(tree, id);
    if none_with_id(tree.preorder(), id) && tree.resolve(id).is_some() {
        let i = choose|i: int| first_with_id(tree.preorder(), id, i);
        assert(tree.preorder()[i].id != id);
    }
}

/// Where every one of `nodes` belongs to `text`, so does every node of
/// their pre-order listing.
pub proof fn lemma_fits_preorder_of(nodes: Seq<SyntaxNode>, text: Seq<char>)
    requires
        forall|k: int| 0 <= k < nodes.len() ==> (#[trigger] nodes[k]).fits(text),
    ensures
        forall|i: int|
            0 <= i < preorder_of(nodes).len() ==> (#[trigger] preorder_of(nodes)[i]).fits(text),
    decreases nodes, 0nat,
{
    if nodes.len() > 0 {
        let before = preorder_of(nodes.drop_last());
        let below = nodes.last().preorder();
        lemma_fits_preorder_of(nodes.drop_last(), text);
        lemma_fits_preorder(nodes.last(), text);
        assert forall|i: int| 0 <= i < preorder_of(nodes).len() implies (#[trigger] preorder_of(
            nodes,
        )[i]).fits(text) by {
            if i < before.len() {
                assert(preorder_of(nodes)[i] == before[i]);
            } else {
                assert(preorder_of(nodes)[i] == below[i - before.len()]);
            }
        }
    }
}

/// Every node of a tree that belongs to `text` belongs to it.
pub proof fn lemma_fits_preorder(tree: SyntaxNode, text: Seq<char>)
    requires
        tree.fits(text),
    ensures
        forall|i: int|
            0 <= i < tree.preorder().len() ==> (#[trigger] tree.preorder()[i]).fits(text),
    decreases tree, 1nat,
{
    let below = preorder_of(tree.children@);
    lemma_fits_preorder_of(tree.children@, text);
    let listed = tree.preorder();
    assert forall|i: int| 0 <= i < listed.len() implies (#[trigger] listed[i]).fits(text) by {
        if i > 0 {
            assert(tree.preorder()[i] == below[i - 1]);
        }
    }
}

} // verus!
