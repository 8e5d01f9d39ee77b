use lsp_notebook::error::NotebookError;
use lsp_notebook::provider::parser;
use lsp_notebook::store::{DocumentState, DocumentStore};
use lsp_notebook::syntax::{Point, SyntaxNode};

fn leaf(id: usize, kind: &str, start_byte: usize, end_byte: usize) -> SyntaxNode {
    SyntaxNode {
        id,
        kind: kind.to_string(),
        start: Point { row: 0, column: start_byte },
        end: Point { row: 0, column: end_byte },
        start_byte,
        end_byte,
        children: vec![],
    }
}

fn parsed(content: &str) -> Option<tree_sitter::Tree> {
    parser().unwrap().parse(content, None)
}

fn state(uri: &str, text: &str, id: usize) -> DocumentState {
    DocumentState::new(uri, text, leaf(id, "document", 0, text.len())).unwrap()
}

#[test]
fn a_new_store_is_empty() {
    let store = DocumentStore::new();
    assert!(store.get("file:///a.md").is_none());
    assert!(store.get("").is_none());
}

#[test]
fn a_state_holds_what_it_was_made_of() {
    let state = state("file:///a.md", "hello", 7);
    assert_eq!(state.uri(), "file:///a.md");
    assert_eq!(state.text(), "hello");
    assert_eq!(state.tree().id, 7);
    assert!(state.actions().is_empty());
}

#[test]
fn a_state_refuses_a_tree_of_another_text() {
    let tree = leaf(1, "document", 0, 6);
    assert!(matches!(
        DocumentState::new("file:///a.md", "hello", tree),
        Err(NotebookError::ParseFailure)
    ));
}

#[test]
fn an_opened_state_is_parsed() {
    let text = "```sh\nls\n```\n";
    let state = DocumentState::open("file:///a.md", text, parsed(text)).unwrap();
    assert_eq!(state.uri(), "file:///a.md");
    assert_eq!(state.text(), "```sh\nls\n```\n");
    assert_eq!(state.tree().kind, "document");
    assert_eq!(state.actions().len(), 1);
}

#[test]
fn a_document_is_found_under_its_identifier() {
    let mut store = DocumentStore::new();
    store.insert(state("file:///a.md", "a", 1));
    store.insert(state("file:///b.md", "b", 2));
    assert_eq!(store.get("file:///a.md").unwrap().text(), "a");
    assert_eq!(store.get("file:///b.md").unwrap().text(), "b");
    assert!(store.get("file:///c.md").is_none());
    assert!(store.get("file:///A.md").is_none());
}

#[test]
fn a_document_is_replaced_as_a_whole() {
    let mut store = DocumentStore::new();
    store.insert(state("file:///a.md", "old", 1));
    store.insert(state("file:///b.md", "b", 2));
    store.insert(state("file:///a.md", "new text", 3));
    let a = store.get("file:///a.md").unwrap();
    assert_eq!(a.text(), "new text");
    assert_eq!(a.tree().id, 3);
    assert_eq!(a.tree().end_byte, 8);
    assert_eq!(store.get("file:///b.md").unwrap().text(), "b");
}

#[test]
fn a_document_can_be_taken_out() {
    let mut store = DocumentStore::new();
    store.insert(state("file:///a.md", "a", 1));
    store.insert(state("file:///b.md", "b", 2));
    store.insert(state("file:///c.md", "c", 3));
    store.remove("file:///b.md");
    assert!(store.get("file:///b.md").is_none());
    assert_eq!(store.get("file:///a.md").unwrap().text(), "a");
    assert_eq!(store.get("file:///c.md").unwrap().text(), "c");
    store.remove("file:///b.md");
    store.remove("file:///a.md");
    assert!(store.get("file:///a.md").is_none());
    assert_eq!(store.get("file:///c.md").unwrap().text(), "c");
}

#[test]
fn put_parses_and_stores() {
    let mut store = DocumentStore::new();
    let text = "```sh\nls\n```\n";
    assert_eq!(store.put("file:///a.md", text, parsed(text)), Ok(()));
    let state = store.get("file:///a.md").unwrap();
    assert_eq!(state.uri(), "file:///a.md");
    assert_eq!(state.text(), "```sh\nls\n```\n");
    assert_eq!(state.actions().len(), 1);
}

#[test]
fn put_replaces_text_and_tree() {
    let mut store = DocumentStore::new();
    let one = "```sh\nls\n```\n";
    let two = "```sh\nls\n```\n\n```sh\npwd\n```\n";
    store.put("file:///a.md", one, parsed(one)).unwrap();
    store.put("file:///b.md", two, parsed(two)).unwrap();
    store.put("file:///a.md", "no code\n", parsed("no code\n")).unwrap();
    assert_eq!(store.get("file:///a.md").unwrap().text(), "no code\n");
    assert!(store.get("file:///a.md").unwrap().actions().is_empty());
    assert_eq!(store.get("file:///b.md").unwrap().actions().len(), 2);
}

#[test]
fn a_failed_parse_takes_the_document_out() {
    let mut store = DocumentStore::new();
    let one = "```sh\nls\n```\n";
    store.put("file:///a.md", one, parsed(one)).unwrap();
    store.put("file:///b.md", one, parsed(one)).unwrap();
    assert_eq!(store.put("file:///a.md", "new text\n", None), Err(NotebookError::ParseFailure));
    assert!(store.get("file:///a.md").is_none());
    assert_eq!(store.get("file:///b.md").unwrap().text(), one);
    assert_eq!(store.put("file:///c.md", "text\n", None), Err(NotebookError::ParseFailure));
    assert!(store.get("file:///c.md").is_none());
}

#[test]
fn a_tree_of_another_text_takes_the_document_out() {
    let mut store = DocumentStore::new();
    let one = "```sh\nls\n```\n";
    store.put("file:///a.md", one, parsed(one)).unwrap();
    assert_eq!(store.put("file:///a.md", "ls\n", parsed(one)), Err(NotebookError::ParseFailure));
    assert!(store.get("file:///a.md").is_none());
}

#[test]
fn an_opened_state_needs_a_tree() {
    assert!(matches!(
        DocumentState::open("file:///a.md", "text\n", None),
        Err(NotebookError::ParseFailure)
    ));
}

fn shape(node: &SyntaxNode) -> String {
    let below: Vec<String> = node.children.iter().map(shape).collect();
    format!(
        "({} {}..{} {:?}-{:?} [{}])",
        node.kind,
        node.start_byte,
        node.end_byte,
        node.start,
        node.end,
        below.join(" ")
    )
}

#[test]
fn an_update_holds_the_copy_of_the_tree_handed_in() {
    let mut store = DocumentStore::new();
    let text = "```sh\nls\n```\n";
    let given = parsed(text).unwrap();
    assert_eq!(store.put("file:///a.md", text, Some(given.clone())), Ok(()));
    let state = store.get("file:///a.md").unwrap();
    let root = given.root_node();
    assert_eq!(state.tree().kind, root.kind());
    assert_eq!(state.tree().end_byte, root.end_byte());
    assert_eq!(state.tree().children.len(), root.child_count());
    assert_eq!(state.tree().children[0].kind, root.child(0).unwrap().kind());
}

#[test]
fn a_second_update_with_the_same_text_leaves_the_same_to_see() {
    let mut store = DocumentStore::new();
    let text = "```sh\nls\n```\n";
    store.put("file:///b.md", "other\n", parsed("other\n")).unwrap();
    store.put("file:///a.md", text, parsed(text)).unwrap();
    let before = shape(store.get("file:///a.md").unwrap().tree());
    store.put("file:///a.md", text, parsed(text)).unwrap();
    let state = store.get("file:///a.md").unwrap();
    assert_eq!(shape(state.tree()), before);
    assert_eq!(state.text(), text);
    assert_eq!(state.actions().len(), 1);
    assert_eq!(store.get("file:///b.md").unwrap().text(), "other\n");
}

#[test]
fn of_two_updates_only_the_second_is_kept() {
    let mut store = DocumentStore::new();
    let first = "```sh\nls\n```\n";
    let second = "no code\n";
    store.put("file:///a.md", first, parsed(first)).unwrap();
    store.put("file:///a.md", second, parsed(second)).unwrap();
    let state = store.get("file:///a.md").unwrap();
    assert_eq!(state.text(), second);
    assert_eq!(state.tree().end_byte, second.len());
    assert!(state.actions().is_empty());
}

#[test]
fn a_state_refuses_a_tree_that_is_out_of_order() {
    let mut tree = leaf(1, "document", 0, 5);
    tree.children.push(leaf(2, "text", 3, 5));
    tree.children.push(leaf(3, "text", 0, 2));
    assert!(matches!(
        DocumentState::new("file:///a.md", "hello", tree),
        Err(NotebookError::ParseFailure)
    ));
    let mut tree = leaf(1, "document", 0, 5);
    tree.children.push(leaf(3, "text", 0, 2));
    tree.children.push(leaf(2, "text", 3, 5));
    assert!(DocumentState::new("file:///a.md", "hello", tree).is_ok());
}
