//! The open documents: for each, its text and the syntax tree of that text.

use crate::actions::{actions_of, code_actions, pairing};
use crate::error::NotebookError;
use crate::provider::{
    accept_tree, copy_of, lemma_copies_alike, parse, readable, root_of,
};
use crate::syntax::SyntaxNode;
use crate::text::same_text;
use vstd::prelude::*;
use vstd::string::*;

verus! {

/// One open document: where it lives, its full text and the syntax tree of
/// that text. The three are set together and never changed: a new text
/// makes a new state.
#[derive(Debug)]
pub struct DocumentState {
    uri: String,
    text: String,
    tree: SyntaxNode,
}

impl DocumentState {
    /// The tree of a document can stand as the tree of its text.
    #[verifier::type_invariant]
    spec fn tree_is_of_text(self) -> bool {
        self.tree.is_tree_of(self.text@)
    }

    /// The identifier of the document.
    pub closed spec fn uri_view(self) -> Seq<char> {
        self.uri@
    }

    /// The full text of the document.
    pub closed spec fn text_view(self) -> Seq<char> {
        self.text@
    }

    /// The syntax tree of the document.
    pub closed spec fn tree_view(self) -> SyntaxNode {
        self.tree
    }

    /// Whether the state is that of the document `uri` with text `text`,
    /// its tree read from what the parser made of that text.
    pub open spec fn reads(
        self,
        uri: Seq<char>,
        text: Seq<char>,
        parsed: Option<tree_sitter::Tree>,
    ) -> bool {
        &&& self.uri_view() == uri
        &&& self.text_view() == text
        &&& copy_of(parsed, self.tree_view())
        &&& self.tree_view().is_tree_of(text)
    }

    /// Whether two states show the same: the same identifier, the same text
    /// and trees that show the same.
    pub open spec fn alike(self, other: DocumentState) -> bool {
        &&& self.uri_view() == other.uri_view()
        &&& self.text_view() == other.text_view()
        &&& self.tree_view().alike(other.tree_view())
    }

    /// The actions of the document: see [`pairing`].
    pub open spec fn actions_view(self) -> Seq<(SyntaxNode, Option<SyntaxNode>)> {
        pairing(self.tree_view().code_blocks(), self.text_view())
    }

    /// The state of the document `uri` with text `text`, given the syntax
    /// tree `tree` of that text. A tree that cannot stand as the tree of the
    /// text is refused.
    pub fn new(uri: &str, text: &str, tree: SyntaxNode) -> (state: Result<Self, NotebookError>)
        ensures
            match state {
                Ok(s) => tree.is_tree_of(text@) && s.uri_view() == uri@ && s.text_view() == text@
                    && s.tree_view() == tree,
                Err(e) => !tree.is_tree_of(text@) && e == NotebookError::ParseFailure,
            },
    {
        match accept_tree(tree, text) {
            Ok(tree) => Ok(DocumentState { uri: uri.to_owned(), text: text.to_owned(), tree }),
            Err(e) => Err(e),
        }
    }

    /// The state of the document `uri` with text `text`, given what the
    /// parser made of that text. There is a state exactly when what the
    /// parser made can be read as the tree of the text, and it holds the
    /// copy of that tree.
    pub fn open(uri: &str, text: &str, parsed: Option<tree_sitter::Tree>) -> (state: Result<
        Self,
        NotebookError,
    >)
        ensures
            match state {
                Ok(s) => s.reads(uri@, text@, parsed),
                Err(e) => e == NotebookError::ParseFailure && !readable(parsed, text@),
            },
    {
        match parse(text, parsed) {
            Ok(tree) => Ok(DocumentState { uri: uri.to_owned(), text: text.to_owned(), tree }),
            Err(e) => Err(e),
        }
    }

    /// The identifier of the document.
    pub fn uri(&self) -> (uri: &str)
        ensures
            uri@ == self.uri_view(),
    {
        self.uri.as_str()
    }

    /// The full text of the document.
    pub fn text(&self) -> (text: &str)
        ensures
            text@ == self.text_view(),
    {
        self.text.as_str()
    }

    /// The syntax tree of the document, which can stand as the tree of its
    /// text.
    pub fn tree(&self) -> (tree: &SyntaxNode)
        ensures
            *tree == self.tree_view(),
            tree.is_tree_of(self.text_view()),
    {
        proof {
            use_type_invariant(self);
        }
        &self.tree
    }

    /// The actions of the document, in document order.
    pub fn actions(&self) -> (actions: Vec<(&SyntaxNode, Option<&SyntaxNode>)>)
        ensures
            actions_of(actions@) == self.actions_view(),
    {
        proof {
            use_type_invariant(self);
        }
        code_actions(&self.tree, self.text.as_str())
    }
}

/// The open documents, each under its identifier. A document is put in as a
/// whole and replaced as a whole; no two entries share an identifier.
#[derive(Debug)]
pub struct DocumentStore {
    documents: Vec<DocumentState>,
}

impl View for DocumentStore {
    type V = Map<Seq<char>, DocumentState>;

    /// The documents by identifier.
    closed spec fn view(&self) -> Map<Seq<char>, DocumentState> {
        Map::new(
            |uri: Seq<char>| self.position(uri).is_some(),
            |uri: Seq<char>| self.documents@[self.position(uri).unwrap()],
        )
    }
}

impl DocumentStore {
    /// No two entries share an identifier.
    #[verifier::type_invariant]
    spec fn distinct(self) -> bool {
        forall|i: int, j: int|
            0 <= i < j < self.documents@.len() ==> (#[trigger] self.documents@[i]).uri@ != (
            #[trigger] self.documents@[j]).uri@
    }

    /// Whether the entry at `i` is that of `uri`.
    spec fn holds(self, uri: Seq<char>, i: int) -> bool {
        0 <= i < self.documents@.len() && self.documents@[i].uri@ == uri
    }

    /// Where the entry of `uri` stands.
    spec fn position(self, uri: Seq<char>) -> Option<int> {
        if exists|i: int| self.holds(uri, i) {
            Some(choose|i: int| self.holds(uri, i))
        } else {
            None
        }
    }

    /// Among distinct entries, the entry of `uri` stands where any entry
    /// of `uri` stands.
    proof fn lemma_position(self, uri: Seq<char>, i: int)
        requires
            self.distinct(),
            self.holds(uri, i),
        ensures
            self.position(uri) == Some(i),
            self@.contains_key(uri),
            self@[uri] == self.documents@[i],
    {
        let k = choose|k: int| self.holds(uri, k);
        if k < i {
            assert(self.documents@[k].uri@ != self.documents@[i].uri@);
        } else if i < k {
            assert(self.documents@[i].uri@ != self.documents@[k].uri@);
        }
    }

    /// Where the entry of `uri` stands.
    fn find(&self, uri: &str) -> (found: Option<usize>)
        ensures
            match found {
                Some(i) => self.holds(uri@, i as int),
                None => forall|k: int| !self.holds(uri@, k),
            },
    {
        let mut i: usize = 0;
        while i < self.documents.len()
            invariant
                0 <= i <= self.documents.len(),
                forall|j: int| 0 <= j < i ==> !self.holds(uri@, j),
            decreases self.documents.len() - i,
        {
            if same_text(self.documents[i].uri.as_str(), uri) {
                return Some(i);
            }
            i += 1;
        }
        None
    }

    /// A store without documents.
    pub fn new() -> (store: Self)
        ensures
            store@ == Map::<Seq<char>, DocumentState>::empty(),
    {
        let store = DocumentStore { documents: Vec::new() };
        assert(store@ =~= Map::<Seq<char>, DocumentState>::empty());
        store
    }

    /// The state of the document `uri`, where it is open.
    pub fn get(&self, uri: &str) -> (state: Option<&DocumentState>)
        ensures
            match state {
                Some(s) => self@.contains_key(uri@) && self@[uri@] == *s && s.uri_view() == uri@,
                None => !self@.contains_key(uri@),
            },
    {
        proof {
            use_type_invariant(self);
        }
        match self.find(uri) {
            Some(i) => {
                proof {
                    self.lemma_position(uri@, i as int);
                }
                Some(&self.documents[i])
            },
            None => None,
        }
    }

    /// Puts `state` under its identifier, in place of what stood there.
    pub fn insert(&mut self, state: DocumentState)
        ensures
            final(self)@ == old(self)@.insert(state.uri_view(), state),
    {
        proof {
            use_type_invariant(&*self);
        }
        let ghost uri = state.uri@;
        let ghost before = *self;
        let found = self.find(state.uri.as_str());
        let mut documents: Vec<DocumentState> = Vec::new();
        core::mem::swap(&mut self.documents, &mut documents);
        let ghost at: int;
        match found {
            Some(i) => {
                proof {
                    at = i as int;
                }
                documents.set(i, state);
            },
            None => {
                proof {
                    at = documents@.len() as int;
                }
                documents.push(state);
            },
        }
        proof {
            assert forall|i: int, j: int| 0 <= i < j < documents@.len() implies (
            #[trigger] documents@[i]).uri@ != (#[trigger] documents@[j]).uri@ by {
                if i != at && j != at {
                    assert(before.documents@[i].uri@ != before.documents@[j].uri@);
                } else if found.is_some() {
                    assert(before.documents@[i].uri@ != before.documents@[j].uri@);
                } else {
                    assert(!before.holds(uri, i));
                }
            }
        }
        self.documents = documents;
        proof {
            let after = before@.insert(uri, state);
            assert(self.holds(uri, at));
            self.lemma_position(uri, at);
            assert forall|key: Seq<char>|
                #![trigger self@.dom().contains(key)]
                #![trigger after.dom().contains(key)]
                self@.dom().contains(key) == after.dom().contains(key) && (self@.dom().contains(
                    key,
                ) ==> self@[key] == after[key]) by {
                if key != uri && before@.contains_key(key) {
                    let k = before.position(key).unwrap();
                    assert(before.holds(key, k));
                    before.lemma_position(key, k);
                    assert(self.holds(key, k));
                    self.lemma_position(key, k);
                }
                if key != uri && self@.contains_key(key) {
                    let k = self.position(key).unwrap();
                    assert(self.holds(key, k));
                    assert(before.holds(key, k));
                    before.lemma_position(key, k);
                    self.lemma_position(key, k);
                }
            }
            assert(self@ =~= after);
        }
    }

    /// Takes out the document `uri`, where it is open.
    pub fn remove(&mut self, uri: &str)
        ensures
            final(self)@ == old(self)@.remove(uri@),
    {
        proof {
            use_type_invariant(&*self);
        }
        let ghost before = *self;
        let found = self.find(uri);
        if let Some(i) = found {
            let mut documents: Vec<DocumentState> = Vec::new();
            core::mem::swap(&mut self.documents, &mut documents);
            documents.remove(i);
            proof {
                assert forall|a: int, b: int| 0 <= a < b < documents@.len() implies (
                #[trigger] documents@[a]).uri@ != (#[trigger] documents@[b]).uri@ by {
                    let x = if a < i { a } else { a + 1 };
                    let y = if b < i { b } else { b + 1 };
                    assert(before.documents@[x].uri@ != before.documents@[y].uri@);
                }
            }
            self.documents = documents;
        }
        proof {
            let after = before@.remove(uri@);
            assert forall|key: Seq<char>|
                #![trigger self@.dom().contains(key)]
                #![trigger after.dom().contains(key)]
                self@.dom().contains(key) == after.dom().contains(key) && (self@.dom().contains(
                    key,
                ) ==> self@[key] == after[key]) by {
                if key != uri@ && before@.contains_key(key) {
                    let k = before.position(key).unwrap();
                    assert(before.holds(key, k));
                    before.lemma_position(key, k);
                    let m = if found.is_some() && k > found.unwrap() { k - 1 } else { k };
                    assert(self.holds(key, m));
                    self.lemma_position(key, m);
                }
                if self@.contains_key(key) {
                    let k = self.position(key).unwrap();
                    assert(self.holds(key, k));
                    let m = if found.is_some() && k >= found.unwrap() { k + 1 } else { k };
                    assert(before.holds(key, m));
                    before.lemma_position(key, m);
                    self.lemma_position(key, k);
                    if key == uri@ {
                        if found.is_some() {
                            before.lemma_position(uri@, found.unwrap() as int);
                        }
                    }
                }
            }
            assert(self@ =~= after);
        }
    }

    /// Takes `text` as the full text of the document `uri`, given what the
    /// parser made of that text. Where that can be read as the tree of the
    /// text, text and tree are put in place of what the store held of the
    /// document. Where it cannot, the parse has failed and the document
    /// leaves the store, so that no tree of an earlier text stands in for
    /// it. No other document is touched.
    pub fn put(
        &mut self,
        uri: &str,
        text: &str,
        parsed: Option<tree_sitter::Tree>,
    ) -> (done: Result<(), NotebookError>)
        ensures
            done.is_ok() == readable(parsed, text@),
            done matches Err(e) ==> e == NotebookError::ParseFailure,
            updated(old(self)@, final(self)@, uri@, text@, parsed),
    {
        match DocumentState::open(uri, text, parsed) {
            Ok(state) => {
                self.insert(state);
                Ok(())
            },
            Err(e) => {
                self.remove(uri);
                Err(e)
            },
        }
    }
}

/// What an update of the document `uri` with text `text` makes of the
/// documents `before`, given what the parser made of the text: `after`
/// holds the state read from it under `uri`, or no state under `uri` where
/// nothing can be read; every other document is in `after` as it was in
/// `before`.
pub open spec fn updated(
    before: Map<Seq<char>, DocumentState>,
    after: Map<Seq<char>, DocumentState>,
    uri: Seq<char>,
    text: Seq<char>,
    parsed: Option<tree_sitter::Tree>,
) -> bool {
    if readable(parsed, text) {
        exists|state: DocumentState| #[trigger]
            state.reads(uri, text, parsed) && after == before.insert(uri, state)
    } else {
        after == before.remove(uri)
    }
}

/// After an update the store holds the document under its identifier, with
/// the new text and the copy of its tree, and holds every other document
/// as before: the identifiers are those that were there and the one of the
/// document.
pub proof fn lemma_update_replaces(
    before: Map<Seq<char>, DocumentState>,
    after: Map<Seq<char>, DocumentState>,
    uri: Seq<char>,
    text: Seq<char>,
    parsed: Option<tree_sitter::Tree>,
)
    requires
        updated(before, after, uri, text, parsed),
    ensures
        after.contains_key(uri) == readable(parsed, text),
        readable(parsed, text) ==> after[uri].reads(uri, text, parsed) && after.dom()
            == before.dom().insert(uri),
        !readable(parsed, text) ==> after.dom() == before.dom().remove(uri),
        forall|other: Seq<char>|
            other != uri ==> after.contains_key(other) == before.contains_key(other) && (
            after.contains_key(other) ==> after[other] == before[other]),
{
    if readable(parsed, text) {
        let state = choose|state: DocumentState| #[trigger]
            state.reads(uri, text, parsed) && after == before.insert(uri, state);
        assert(after.dom() =~= before.dom().insert(uri));
    } else {
        assert(after.dom() =~= before.dom().remove(uri));
    }
}

/// Two updates of one document in a row leave what the second alone would
/// have left: nothing of the first text or tree is kept.
pub proof fn lemma_update_twice(
    before: Map<Seq<char>, DocumentState>,
    between: Map<Seq<char>, DocumentState>,
    after: Map<Seq<char>, DocumentState>,
    uri: Seq<char>,
    first: Seq<char>,
    first_parsed: Option<tree_sitter::Tree>,
    second: Seq<char>,
    second_parsed: Option<tree_sitter::Tree>,
)
    requires
        updated(before, between, uri, first, first_parsed),
        updated(between, after, uri, second, second_parsed),
    ensures
        updated(before, after, uri, second, second_parsed),
{
    if readable(second_parsed, second) {
        let state = choose|state: DocumentState| #[trigger]
            state.reads(uri, second, second_parsed) && after == between.insert(uri, state);
        if readable(first_parsed, first) {
            let earlier = choose|earlier: DocumentState| #[trigger]
                earlier.reads(uri, first, first_parsed) && between == before.insert(uri, earlier);
            assert(before.insert(uri, earlier).insert(uri, state) =~= before.insert(uri, state));
        } else {
            assert(before.remove(uri).insert(uri, state) =~= before.insert(uri, state));
        }
        assert(state.reads(uri, second, second_parsed) && after == before.insert(uri, state));
    } else {
        if readable(first_parsed, first) {
            let earlier = choose|earlier: DocumentState| #[trigger]
                earlier.reads(uri, first, first_parsed) && between == before.insert(uri, earlier);
            assert(before.insert(uri, earlier).remove(uri) =~= before.remove(uri));
        } else {
            assert(before.remove(uri).remove(uri) =~= before.remove(uri));
        }
    }
}

/// An update with the text and the tree that the store already holds of
/// the document changes nothing that can be seen: the same documents are
/// there, every other document is as it was, and the document shows the
/// same as before.
pub proof fn lemma_update_again(
    before: Map<Seq<char>, DocumentState>,
    between: Map<Seq<char>, DocumentState>,
    after: Map<Seq<char>, DocumentState>,
    uri: Seq<char>,
    text: Seq<char>,
    parsed: Option<tree_sitter::Tree>,
)
    requires
        updated(before, between, uri, text, parsed),
        updated(between, after, uri, text, parsed),
    ensures
        after.dom() == between.dom(),
        forall|other: Seq<char>|
            other != uri && after.contains_key(other) ==> after[other] == between[other],
        after.contains_key(uri) ==> after[uri].alike(between[uri]),
{
    lemma_update_replaces(before, between, uri, text, parsed);
    lemma_update_replaces(between, after, uri, text, parsed);
    if readable(parsed, text) {
        assert(after.dom() =~= between.dom());
        lemma_copies_alike(
            after[uri].tree_view(),
            between[uri].tree_view(),
            root_of(parsed.unwrap()),
        );
    } else {
        assert(after.dom() =~= between.dom());
    }
}

} // verus!
