//! What the editor is offered and what it sends back: a lens over every
//! action of a document, and the request to run one of them.

use crate::actions::{actions_of, lemma_pairing_members, pairing};
use crate::blocks::{
    code_content, lemma_code_blocks_in_tree, lemma_fits_child_readable, CODE_FENCE_CONTENT,
};
use crate::edit::{
    edit_range, edit_text, node_range, range_of, replacement, target_range, Range, TextEdit,
};
use crate::error::NotebookError;
use crate::order::{ends_before, lemma_output_behind_source};
use crate::store::{DocumentState, DocumentStore};
use crate::syntax::{
    distinct_ids, lemma_fits_preorder, lemma_resolve_exact, lemma_resolve_own_address, node_by_id,
    SyntaxNode,
};
use vstd::prelude::*;
use vstd::string::*;

verus! {

/// The name of the command that runs an action.
pub const RUN_COMMAND: &'static str = "lsp-notebook.run";

/// What a lens shows.
pub const RUN_TITLE: &'static str = "Run";

/// One argument of a command, as far as this library reads it.
#[derive(Debug, PartialEq, Eq)]
pub enum Argument {
    Text(String),
    Number(u64),
    /// Anything that is neither text nor a number without sign or fraction.
    Other,
}

/// An [`Argument`] with its text as characters.
pub enum ArgumentView {
    Text(Seq<char>),
    Number(u64),
    Other,
}

impl View for Argument {
    type V = ArgumentView;

    open spec fn view(&self) -> ArgumentView {
        match self {
            Argument::Text(text) => ArgumentView::Text(text@),
            Argument::Number(number) => ArgumentView::Number(*number),
            Argument::Other => ArgumentView::Other,
        }
    }
}

/// The views of `arguments`, one for one.
pub open spec fn argument_views(arguments: Seq<Argument>) -> Seq<ArgumentView> {
    arguments.map_values(|argument: Argument| argument@)
}

/// The request to run one action: the document, the address of the code
/// block and, where the action has one, the address of its output block.
#[derive(Debug, PartialEq, Eq)]
pub struct RunAction {
    pub document: String,
    pub source: usize,
    pub output: Option<usize>,
}

/// A [`RunAction`] with its document as characters.
pub struct RunActionView {
    pub document: Seq<char>,
    pub source: usize,
    pub output: Option<usize>,
}

impl View for RunAction {
    type V = RunActionView;

    open spec fn view(&self) -> RunActionView {
        RunActionView { document: self.document@, source: self.source, output: self.output }
    }
}

/// What an editor is shown over an action: where, under which title, and
/// the command that runs it with its arguments.
#[derive(Debug, PartialEq, Eq)]
pub struct Lens {
    pub range: Range,
    pub title: String,
    pub command: String,
    pub arguments: Vec<Argument>,
}

/// A [`Lens`] with its texts as characters.
pub struct LensView {
    pub range: Range,
    pub title: Seq<char>,
    pub command: Seq<char>,
    pub arguments: Seq<ArgumentView>,
}

impl View for Lens {
    type V = LensView;

    open spec fn view(&self) -> LensView {
        LensView {
            range: self.range,
            title: self.title@,
            command: self.command@,
            arguments: argument_views(self.arguments@),
        }
    }
}

/// The views of `lenses`, one for one.
pub open spec fn lens_views(lenses: Seq<Lens>) -> Seq<LensView> {
    lenses.map_values(|lens: Lens| lens@)
}

/// A run that has been accepted and waits for the code to be executed: the
/// code, and where the output will go. It holds nothing of the document's
/// state, so that the state is free while the code runs.
#[derive(Debug, PartialEq, Eq)]
pub struct PendingRun {
    pub document: String,
    pub code: String,
    pub range: Range,
    /// Whether the output takes the place of an earlier output block.
    pub replaces: bool,
}

/// How the execution of a code block ended.
#[derive(Debug, PartialEq, Eq)]
pub enum Execution {
    /// The process ran to its end, with whatever status: a status other
    /// than success is recorded like any other.
    Finished { status: String, output: String },
    /// The process could not be started, or was lost before it ended.
    Failed,
}

/// The serialization of the absolute URL that `text` spells, and none where
/// it spells none.
pub uninterp spec fn uri_serialization(text: Seq<char>) -> Option<Seq<char>>;

/// `lsp_types::Url::parse`, and `Url::as_str` on what it gives: parses
/// `text` as an absolute URL and hands back the URL's serialization. The
/// contract gives the outcome a name and claims no more than that it
/// depends on `text` alone.
#[verifier::external_body]
fn serialize_uri(text: &str) -> (uri: Option<String>)
    ensures
        match uri {
            Some(serialization) => uri_serialization(text@) == Some(serialization@),
            None => uri_serialization(text@).is_none(),
        },
{
    match lsp_types::Url::parse(text) {
        Ok(url) => Some(url.as_str().to_owned()),
        Err(_) => None,
    }
}

/// The address that `argument` holds: a number that fits an address.
pub open spec fn address_in(argument: ArgumentView) -> Option<usize> {
    match argument {
        ArgumentView::Number(number) if number <= usize::MAX => Some(number as usize),
        _ => None,
    }
}

/// The addresses that the arguments after the document hold: the source
/// and, where there is a third argument, the output. What follows the third
/// argument is not read.
pub open spec fn addresses_in(arguments: Seq<ArgumentView>) -> Option<(usize, Option<usize>)> {
    if arguments.len() < 2 {
        None
    } else {
        match address_in(arguments[1]) {
            Some(source) => if arguments.len() == 2 {
                Some((source, None))
            } else {
                match address_in(arguments[2]) {
                    Some(output) => Some((source, Some(output))),
                    None => None,
                }
            },
            None => None,
        }
    }
}

/// The request that `arguments` spell: the first names the document by its
/// URL, the others hold the addresses.
pub open spec fn request_in(arguments: Seq<ArgumentView>) -> Option<RunActionView> {
    if arguments.len() < 1 {
        None
    } else {
        match (arguments[0], addresses_in(arguments)) {
            (ArgumentView::Text(text), Some((source, output))) => match uri_serialization(text) {
                Some(document) => Some(RunActionView { document, source, output }),
                None => None,
            },
            _ => None,
        }
    }
}

/// The arguments that carry the request to run `source` with `output` in
/// the document `uri`.
pub open spec fn arguments_for(uri: Seq<char>, source: usize, output: Option<usize>) -> Seq<
    ArgumentView,
> {
    let head = seq![ArgumentView::Text(uri), ArgumentView::Number(source as u64)];
    match output {
        Some(address) => head.push(ArgumentView::Number(address as u64)),
        None => head,
    }
}

/// The lens over the action of `source` and `output` in the document
/// `uri`: it lies over the source block and carries both addresses.
pub open spec fn lens_for(uri: Seq<char>, action: (SyntaxNode, Option<SyntaxNode>)) -> LensView {
    LensView {
        range: range_of(action.0),
        title: RUN_TITLE@,
        command: RUN_COMMAND@,
        arguments: arguments_for(
            uri,
            action.0.id,
            match action.1 {
                Some(output) => Some(output.id),
                None => None,
            },
        ),
    }
}

/// The request that the lens over `action` carries for the document `uri`.
pub open spec fn request_for(
    uri: Seq<char>,
    action: (SyntaxNode, Option<SyntaxNode>),
) -> RunActionView {
    RunActionView {
        document: uri,
        source: action.0.id,
        output: match action.1 {
            Some(output) => Some(output.id),
            None => None,
        },
    }
}

/// What `request` asks for in a document with tree `tree` and text `text`:
/// the code of the source block and the range that its output is written
/// to. There is nothing to run where an address of the request names no
/// node of the tree.
pub open spec fn run_of(tree: SyntaxNode, text: Seq<char>, request: RunActionView) -> Option<
    (Seq<char>, Range),
> {
    match tree.resolve(request.source) {
        Some(source) => match request.output {
            Some(address) => match tree.resolve(address) {
                Some(output) => Some(
                    (source.code_content(text), target_range(source, Some(output))),
                ),
                None => None,
            },
            None => Some((source.code_content(text), target_range(source, None))),
        },
        None => None,
    }
}

impl Argument {
    /// The address that the argument holds.
    pub fn address(&self) -> (address: Option<usize>)
        ensures
            address == address_in(self@),
    {
        match self {
            Argument::Number(number) => {
                if *number <= usize::MAX as u64 {
                    Some(*number as usize)
                } else {
                    None
                }
            },
            _ => None,
        }
    }
}

impl RunAction {
    /// The request to run an action of `document`, with the addresses that
    /// `arguments` hold behind their first.
    pub fn new(document: String, arguments: &Vec<Argument>) -> (request: Result<
        RunAction,
        NotebookError,
    >)
        ensures
            match request {
                Ok(action) => addresses_in(argument_views(arguments@)) == Some(
                    (action.source, action.output),
                ) && action.document == document,
                Err(e) => e == NotebookError::ProtocolError && addresses_in(
                    argument_views(arguments@),
                ).is_none(),
            },
    {
        if arguments.len() < 2 {
            return Err(NotebookError::ProtocolError);
        }
        let source = match arguments[1].address() {
            Some(source) => source,
            None => {
                return Err(NotebookError::ProtocolError);
            },
        };
        if arguments.len() == 2 {
            return Ok(RunAction { document, source, output: None });
        }
        match arguments[2].address() {
            Some(output) => Ok(RunAction { document, source, output: Some(output) }),
            None => Err(NotebookError::ProtocolError),
        }
    }

    /// Reads the request that the arguments of a command spell. Arguments
    /// that are missing or garbled are a protocol error.
    pub fn from_arguments(arguments: &Vec<Argument>) -> (request: Result<RunAction, NotebookError>)
        ensures
            match request {
                Ok(action) => request_in(argument_views(arguments@)) == Some(action@),
                Err(e) => e == NotebookError::ProtocolError && request_in(
                    argument_views(arguments@),
                ).is_none(),
            },
    {
        if arguments.len() < 1 {
            return Err(NotebookError::ProtocolError);
        }
        let document = match &arguments[0] {
            Argument::Text(text) => match serialize_uri(text.as_str()) {
                Some(document) => document,
                None => {
                    return Err(NotebookError::ProtocolError);
                },
            },
            _ => {
                return Err(NotebookError::ProtocolError);
            },
        };
        RunAction::new(document, arguments)
    }
}

/// The lens over one action of the document `uri`.
pub fn lens<'a>(uri: &str, action: &(&'a SyntaxNode, Option<&'a SyntaxNode>)) -> (lens: Lens)
    ensures
        lens@ == lens_for(
            uri@,
            (
                *action.0,
                match action.1 {
                    Some(output) => Some(*output),
                    None => None,
                },
            ),
        ),
{
    let mut arguments: Vec<Argument> = Vec::new();
    arguments.push(Argument::Text(uri.to_owned()));
    arguments.push(Argument::Number(action.0.id as u64));
    if let Some(output) = action.1 {
        arguments.push(Argument::Number(output.id as u64));
    }
    let lens = Lens {
        range: node_range(action.0),
        title: RUN_TITLE.to_owned(),
        command: RUN_COMMAND.to_owned(),
        arguments,
    };
    assert(lens@.arguments =~= arguments_for(
        uri@,
        action.0.id,
        match action.1 {
            Some(output) => Some(output.id),
            None => None,
        },
    ));
    lens
}

/// The lenses of a document: one over each of its actions, in their order.
pub fn lenses(state: &DocumentState) -> (lenses: Vec<Lens>)
    ensures
        lens_views(lenses@) == state.actions_view().map_values(
            |action: (SyntaxNode, Option<SyntaxNode>)| lens_for(state.uri_view(), action),
        ),
{
    let actions = state.actions();
    let mut lenses: Vec<Lens> = Vec::new();
    let mut i: usize = 0;
    while i < actions.len()
        invariant
            0 <= i <= actions.len(),
            actions_of(actions@) == state.actions_view(),
            lenses@.len() == i,
            forall|k: int|
                0 <= k < i ==> (#[trigger] lenses@[k])@ == lens_for(
                    state.uri_view(),
                    state.actions_view()[k],
                ),
        decreases actions.len() - i,
    {
        assert(actions_of(actions@)[i as int] == state.actions_view()[i as int]);
        lenses.push(lens(state.uri(), &actions[i]));
        i += 1;
    }
    assert(lens_views(lenses@) =~= state.actions_view().map_values(
        |action: (SyntaxNode, Option<SyntaxNode>)| lens_for(state.uri_view(), action),
    ));
    lenses
}

/// Accepts the request to run an action of the document `state`: resolves
/// its addresses in the document's tree and takes out the code to run.
pub fn prepare_run(state: &DocumentState, request: &RunAction) -> (run: Result<
    PendingRun,
    NotebookError,
>)
    ensures
        match run {
            Ok(pending) => run_of(state.tree_view(), state.text_view(), request@) == Some(
                (pending.code@, pending.range),
            ) && pending.document@ == state.uri_view() && pending.replaces
                == request.output.is_some(),
            Err(e) => e == NotebookError::AddressNotFound && run_of(
                state.tree_view(),
                state.text_view(),
                request@,
            ).is_none(),
        },
{
    let tree = state.tree();
    let source = match node_by_id(tree, request.source) {
        Some(source) => source,
        None => {
            return Err(NotebookError::AddressNotFound);
        },
    };
    let output = match request.output {
        Some(address) => match node_by_id(tree, address) {
            Some(output) => Some(output),
            None => {
                return Err(NotebookError::AddressNotFound);
            },
        },
        None => None,
    };
    proof {
        lemma_fits_preorder(*tree, state.text_view());
        let i = tree.preorder().index_of(*source);
        assert(tree.preorder()[i] == *source);
        lemma_fits_child_readable(*source, CODE_FENCE_CONTENT@, state.text_view());
    }
    Ok(
        PendingRun {
            document: state.uri().to_owned(),
            code: code_content(source, state.text()),
            range: edit_range(source, output),
            replaces: output.is_some(),
        },
    )
}

/// Ends a run: plans the edit that writes what the execution gave into the
/// document. An execution that failed is a failure of the run; one that
/// finished gives an edit whatever its status was.
pub fn complete_run(pending: &PendingRun, execution: &Execution) -> (edit: Result<
    TextEdit,
    NotebookError,
>)
    ensures
        match *execution {
            Execution::Finished { status, output } => edit matches Ok(planned) && planned.range
                == pending.range && planned.new_text@ == replacement(
                pending.replaces,
                status@,
                output@,
            ),
            Execution::Failed => edit == Err::<TextEdit, NotebookError>(
                NotebookError::ExecutionFailure,
            ),
        },
{
    match execution {
        Execution::Finished { status, output } => Ok(
            TextEdit {
                range: pending.range,
                new_text: edit_text(pending.replaces, status.as_str(), output.as_str()),
            },
        ),
        Execution::Failed => Err(NotebookError::ExecutionFailure),
    }
}

impl DocumentStore {
    /// Accepts the request to run an action of one of the open documents.
    /// A request on a document that is not open is passed over: there is
    /// nothing to run and nothing has failed.
    pub fn prepare_run(&self, request: &RunAction) -> (run: Result<
        Option<PendingRun>,
        NotebookError,
    >)
        ensures
            !self@.contains_key(request.document@) ==> run == Ok::<
                Option<PendingRun>,
                NotebookError,
            >(None),
            self@.contains_key(request.document@) ==> {
                let state = self@[request.document@];
                match run {
                    Ok(Some(pending)) => run_of(state.tree_view(), state.text_view(), request@)
                        == Some((pending.code@, pending.range)) && pending.document@
                        == request.document@ && pending.replaces == request.output.is_some(),
                    Ok(None) => false,
                    Err(e) => e == NotebookError::AddressNotFound && run_of(
                        state.tree_view(),
                        state.text_view(),
                        request@,
                    ).is_none(),
                }
            },
    {
        match self.get(request.document.as_str()) {
            Some(state) => match prepare_run(state, request) {
                Ok(pending) => Ok(Some(pending)),
                Err(e) => Err(e),
            },
            None => Ok(None),
        }
    }
}

/// The arguments of a lens spell the request that the lens stands for,
/// wherever the document's identifier is the serialization of itself.
pub proof fn lemma_arguments_round_trip(uri: Seq<char>, source: usize, output: Option<usize>)
    ensures
        uri_serialization(uri) == Some(uri) ==> request_in(arguments_for(uri, source, output))
            == Some(RunActionView { document: uri, source, output }),
        addresses_in(arguments_for(uri, source, output)) == Some((source, output)),
{
}

/// Every action of a document can be run on that document: the addresses
/// that its lens carries resolve in the tree they were taken from.
pub proof fn lemma_actions_can_run(tree: SyntaxNode, text: Seq<char>, uri: Seq<char>, i: int)
    requires
        0 <= i < pairing(tree.code_blocks(), text).len(),
    ensures
        run_of(tree, text, request_for(uri, pairing(tree.code_blocks(), text)[i])).is_some(),
{
    let blocks = tree.code_blocks();
    let action = pairing(blocks, text)[i];
    lemma_pairing_members(blocks, text);
    lemma_code_blocks_in_tree(tree);
    let b = blocks.index_of(action.0);
    assert(tree.preorder().contains(blocks[b]));
    lemma_resolve_own_address(tree, tree.preorder().index_of(action.0));
    if action.1.is_some() {
        let output = action.1.unwrap();
        let c = blocks.index_of(output);
        assert(tree.preorder().contains(blocks[c]));
        lemma_resolve_own_address(tree, tree.preorder().index_of(output));
    }
}

/// A rerun replaces exactly the old output block and leaves the code alone:
/// in a document whose tree lays its nodes out as a text does and tells
/// them apart by their ids, the request that the lens over an action with
/// an output carries is answered with the code of the source and the range
/// of the output block, and that block lies behind the source.
pub proof fn lemma_rerun_replaces_output(tree: SyntaxNode, text: Seq<char>, uri: Seq<char>, i: int)
    requires
        tree.in_order(),
        distinct_ids(tree.preorder()),
        0 <= i < pairing(tree.code_blocks(), text).len(),
        pairing(tree.code_blocks(), text)[i].1.is_some(),
    ensures
        ({
            let source = pairing(tree.code_blocks(), text)[i].0;
            let output = pairing(tree.code_blocks(), text)[i].1.unwrap();
            &&& run_of(tree, text, request_for(uri, (source, Some(output)))) == Some(
                (source.code_content(text), range_of(output)),
            )
            &&& ends_before(source, output)
        }),
{
    let blocks = tree.code_blocks();
    let source = pairing(blocks, text)[i].0;
    let output = pairing(blocks, text)[i].1.unwrap();
    lemma_pairing_members(blocks, text);
    lemma_code_blocks_in_tree(tree);
    assert(tree.preorder().contains(blocks[blocks.index_of(source)]));
    assert(tree.preorder().contains(blocks[blocks.index_of(output)]));
    lemma_resolve_exact(tree, tree.preorder().index_of(source));
    lemma_resolve_exact(tree, tree.preorder().index_of(output));
    lemma_output_behind_source(tree, text, i);
}

} // verus!
