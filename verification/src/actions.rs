//! The actions of a document: each runnable code block, together with the
//! output block that belongs to it.

use crate::blocks::{
    collect_codeblocks, info_string, lemma_code_blocks_fit, lemma_fits_child_readable, nodes_of,
    INFO_STRING,
};
use crate::syntax::SyntaxNode;
use crate::text::same_text;
use vstd::prelude::*;

verus! {

/// The info string that marks a fenced block as the output of the block
/// before it.
pub const OUTPUT_LABEL: &'static str = "output";

impl SyntaxNode {
    /// Whether the info string of the block within `text` is the output
    /// label, letter for letter.
    pub open spec fn is_output(self, text: Seq<char>) -> bool {
        self.info_string(text) == OUTPUT_LABEL@
    }
}

/// The actions that the code blocks `blocks` of one document give: a block
/// takes the block right after it as its output where that one is labelled
/// as output, and stands alone otherwise. The scan goes left to right and a
/// block that was taken as an output is passed over.
pub open spec fn pairing(blocks: Seq<SyntaxNode>, text: Seq<char>) -> Seq<
    (SyntaxNode, Option<SyntaxNode>),
>
    decreases blocks.len(),
{
    if blocks.len() == 0 {
        Seq::empty()
    } else if blocks.len() >= 2 && blocks[1].is_output(text) {
        seq![(blocks[0], Some(blocks[1]))] + pairing(blocks.skip(2), text)
    } else {
        seq![(blocks[0], None)] + pairing(blocks.skip(1), text)
    }
}

/// The blocks that `actions` hold, in their order: every source, followed
/// by its output where it has one.
pub open spec fn flattened(actions: Seq<(SyntaxNode, Option<SyntaxNode>)>) -> Seq<SyntaxNode>
    decreases actions.len(),
{
    if actions.len() == 0 {
        Seq::empty()
    } else {
        let rest = flattened(actions.skip(1));
        match actions[0].1 {
            Some(output) => seq![actions[0].0, output] + rest,
            None => seq![actions[0].0] + rest,
        }
    }
}

/// The actions that `refs` point to.
pub open spec fn actions_of(refs: Seq<(&SyntaxNode, Option<&SyntaxNode>)>) -> Seq<
    (SyntaxNode, Option<SyntaxNode>),
> {
    refs.map_values(
        |action: (&SyntaxNode, Option<&SyntaxNode>)|
            (
                *action.0,
                match action.1 {
                    Some(output) => Some(*output),
                    None => None,
                },
            ),
    )
}

/// Whether the info string of every one of `blocks` can be taken out of
/// `text`.
pub open spec fn labels_readable(blocks: Seq<SyntaxNode>, text: Seq<char>) -> bool {
    forall|i: int|
        0 <= i < blocks.len() ==> (#[trigger] blocks[i]).child_readable(INFO_STRING@, text)
}

/// Pairs each code block of `blocks` with the output block that follows it,
/// where one does.
pub fn pair<'a>(blocks: &Vec<&'a SyntaxNode>, content: &str) -> (actions: Vec<
    (&'a SyntaxNode, Option<&'a SyntaxNode>),
>)
    requires
        labels_readable(nodes_of(blocks@), content@),
    ensures
        actions_of(actions@) == pairing(nodes_of(blocks@), content@),
{
    let ghost all = nodes_of(blocks@);
    let mut pairs: Vec<(&'a SyntaxNode, Option<&'a SyntaxNode>)> = Vec::new();
    let mut i: usize = 0;
    assert(all.skip(0) =~= all);
    while i < blocks.len()
        invariant
            0 <= i <= blocks.len(),
            all == nodes_of(blocks@),
            labels_readable(all, content@),
            actions_of(pairs@) + pairing(all.skip(i as int), content@) == pairing(all, content@),
        decreases blocks.len() - i,
    {
        let ghost done = actions_of(pairs@);
        let ghost left = all.skip(i as int);
        let node = blocks[i];
        assert(left[0] == *node);
        i += 1;
        if i == blocks.len() {
            pairs.push((node, None));
            proof {
                assert(left.skip(1) =~= all.skip(i as int));
                assert(actions_of(pairs@) =~= done + seq![(*node, None::<SyntaxNode>)]);
            }
        } else {
            let next = blocks[i];
            assert(left[1] == *next);
            assert(all[i as int] == *next);
            let label = info_string(next, content);
            if same_text(label.as_str(), OUTPUT_LABEL) {
                pairs.push((node, Some(next)));
                i += 1;
                proof {
                    assert(left.skip(2) =~= all.skip(i as int));
                    assert(actions_of(pairs@) =~= done + seq![(*node, Some(*next))]);
                }
            } else {
                pairs.push((node, None));
                proof {
                    assert(left.skip(1) =~= all.skip(i as int));
                    assert(actions_of(pairs@) =~= done + seq![(*node, None::<SyntaxNode>)]);
                }
            }
        }
    }
    assert(pairing(all.skip(i as int), content@) =~= Seq::empty());
    pairs
}

/// The actions of the document `content` whose syntax tree is `tree`: its
/// fenced code blocks in document order, each with the block labelled as
/// output that follows it directly, where one does.
pub fn code_actions<'a>(tree: &'a SyntaxNode, content: &str) -> (actions: Vec<
    (&'a SyntaxNode, Option<&'a SyntaxNode>),
>)
    requires
        tree.fits(content@),
    ensures
        actions_of(actions@) == pairing(tree.code_blocks(), content@),
{
    let mut blocks: Vec<&'a SyntaxNode> = Vec::new();
    collect_codeblocks(tree, &mut blocks);
    proof {
        assert(nodes_of(blocks@) =~= tree.code_blocks());
        lemma_code_blocks_fit(*tree, content@);
        assert forall|i: int| 0 <= i < tree.code_blocks().len() implies (
        #[trigger] tree.code_blocks()[i]).child_readable(INFO_STRING@, content@) by {
            lemma_fits_child_readable(tree.code_blocks()[i], INFO_STRING@, content@);
        }
    }
    pair(&blocks, content)
}

/// Blocks of which none is labelled as output give one action each, in
/// their order, and none of the actions has an output.
pub proof fn lemma_pairing_without_outputs(blocks: Seq<SyntaxNode>, text: Seq<char>)
    requires
        forall|i: int| 0 <= i < blocks.len() ==> !(#[trigger] blocks[i]).is_output(text),
    ensures
        pairing(blocks, text).len() == blocks.len(),
        forall|i: int|
            0 <= i < blocks.len() ==> (#[trigger] pairing(blocks, text)[i]) == (
                blocks[i],
                None::<SyntaxNode>,
            ),
    decreases blocks.len(),
{
    if blocks.len() > 0 {
        let rest = blocks.skip(1);
        assert forall|i: int| 0 <= i < rest.len() implies !(#[trigger] rest[i]).is_output(text) by {
            assert(rest[i] == blocks[i + 1]);
        }
        lemma_pairing_without_outputs(rest, text);
        assert forall|i: int| 0 <= i < blocks.len() implies (#[trigger] pairing(blocks, text)[i])
            == (blocks[i], None::<SyntaxNode>) by {
            if i > 0 {
                assert(pairing(blocks, text)[i] == pairing(rest, text)[i - 1]);
                assert(rest[i - 1] == blocks[i]);
            }
        }
    }
}

/// A code block followed by a block labelled as output gives one action,
/// which holds both: the output block gives no action of its own.
pub proof fn lemma_pairing_block_and_output(
    source: SyntaxNode,
    output: SyntaxNode,
    text: Seq<char>,
)
    requires
        output.is_output(text),
    ensures
        pairing(seq![source, output], text) == seq![(source, Some(output))],
{
    let blocks = seq![source, output];
    assert(blocks.skip(2) =~= Seq::<SyntaxNode>::empty());
    assert(pairing(blocks.skip(2), text) =~= Seq::empty());
    assert(pairing(blocks, text) =~= seq![(source, Some(output))]);
}

/// The first block is the source of the first action, whatever its label:
/// a block labelled as output that no block stands before is run like any
/// other.
pub proof fn lemma_pairing_first_is_source(blocks: Seq<SyntaxNode>, text: Seq<char>)
    requires
        blocks.len() > 0,
    ensures
        pairing(blocks, text).len() > 0,
        pairing(blocks, text)[0].0 == blocks[0],
{
}

/// The source of every action is one of the blocks, and so is its output.
pub proof fn lemma_pairing_members(blocks: Seq<SyntaxNode>, text: Seq<char>)
    ensures
        forall|i: int|
            0 <= i < pairing(blocks, text).len() ==> blocks.contains(
                (#[trigger] pairing(blocks, text)[i]).0,
            ) && (pairing(blocks, text)[i].1 matches Some(output) ==> blocks.contains(output)),
    decreases blocks.len(),
{
    let actions = pairing(blocks, text);
    if blocks.len() > 0 {
        let taken: int = if blocks.len() >= 2 && blocks[1].is_output(text) { 2 } else { 1 };
        let rest = blocks.skip(taken);
        lemma_pairing_members(rest, text);
        assert forall|i: int| 0 <= i < actions.len() implies blocks.contains(
            (#[trigger] actions[i]).0,
        ) && (actions[i].1 matches Some(output) ==> blocks.contains(output)) by {
            if i == 0 {
                assert(blocks[0] == actions[0].0);
                if taken == 2 {
                    assert(actions[0].1 == Some(blocks[1]));
                }
            } else {
                let action = pairing(rest, text)[i - 1];
                assert(actions[i] == action);
                let k = rest.index_of(action.0);
                assert(blocks[k + taken] == rest[k]);
                if action.1.is_some() {
                    let m = rest.index_of(action.1.unwrap());
                    assert(blocks[m + taken] == rest[m]);
                }
            }
        }
    }
}

/// Every block gives or joins exactly one action: the actions of `blocks`
/// hold the blocks in their order, each once, as a source or as the output
/// of the source before it. An action has an output only where that block
/// is labelled as output.
pub proof fn lemma_pairing_keeps_blocks(blocks: Seq<SyntaxNode>, text: Seq<char>)
    ensures
        flattened(pairing(blocks, text)) == blocks,
        forall|i: int|
            0 <= i < pairing(blocks, text).len() ==> (
            #[trigger] pairing(blocks, text)[i].1 matches Some(output) ==> output.is_output(text)),
    decreases blocks.len(),
{
    let actions = pairing(blocks, text);
    if blocks.len() > 0 {
        let taken: int = if blocks.len() >= 2 && blocks[1].is_output(text) { 2 } else { 1 };
        let rest = pairing(blocks.skip(taken), text);
        lemma_pairing_keeps_blocks(blocks.skip(taken), text);
        assert(actions.skip(1) =~= rest);
        assert(flattened(actions) =~= blocks);
        assert forall|i: int| 0 <= i < actions.len() implies (#[trigger] actions[i].1 matches Some(
            output,
        ) ==> output.is_output(text)) by {
            if i > 0 {
                assert(actions[i] == rest[i - 1]);
            }
        }
    }
}

} // verus!
