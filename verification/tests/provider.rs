use lsp_notebook::actions::code_actions;
use lsp_notebook::blocks::{code_content, collect_codeblocks, info_string};
use lsp_notebook::command::{
    complete_run, lenses, Argument, Execution, RunAction,
};
use lsp_notebook::edit::{node_range, Position, Range, TextEdit};
use lsp_notebook::error::NotebookError;
use lsp_notebook::provider::{accept_tree, parse, parser, with_language, HEIGHT_LIMIT};
use lsp_notebook::store::DocumentStore;
use lsp_notebook::syntax::{fits_text, node_by_id, Point, SyntaxNode};

fn parsed(content: &str) -> Option<tree_sitter::Tree> {
    parser().unwrap().parse(content, None)
}

fn tree_of(content: &str) -> SyntaxNode {
    parse(content, parsed(content)).unwrap()
}

fn at(line: u32, character: u32) -> Position {
    Position { line, character }
}

fn offset(text: &str, position: Position) -> usize {
    let mut line = 0;
    let mut start = 0;
    for (i, byte) in text.bytes().enumerate() {
        if line == position.line {
            break;
        }
        if byte == b'\n' {
            line += 1;
            start = i + 1;
        }
    }
    start + position.character as usize
}

fn apply(text: &str, edit: &TextEdit) -> String {
    let start = offset(text, edit.range.start);
    let end = offset(text, edit.range.end);
    format!("{}{}{}", &text[..start], edit.new_text, &text[end..])
}

fn count(node: &SyntaxNode) -> usize {
    1 + node.children.iter().map(count).sum::<usize>()
}

fn all_ids(node: &SyntaxNode, ids: &mut Vec<usize>) {
    ids.push(node.id);
    for child in &node.children {
        all_ids(child, ids);
    }
}

#[test]
fn test_code_actions() {
    let content = "\n```sh\necho hello\n```\n```output\nhello\n```\n";

    let tree = tree_of(content);
    let actions = code_actions(&tree, content);
    assert_eq!(actions.len(), 1);
}

#[test]
fn the_parser_takes_the_grammar() {
    let mut parser = parser().unwrap();
    let tree = parser.parse("# title\n", None).unwrap();
    assert_eq!(tree.root_node().kind(), "document");
}

#[test]
fn a_parser_that_took_the_grammar_is_accepted() {
    let mut parser = tree_sitter::Parser::new();
    let taken = parser.set_language(tree_sitter_markdown::language());
    assert!(taken.is_ok());
    let mut accepted = with_language(parser, taken).unwrap();
    assert!(accepted.parse("text\n", None).is_some());
}

fn height(node: &SyntaxNode) -> usize {
    1 + node.children.iter().map(height).max().unwrap_or(0)
}

#[test]
fn a_nested_text_has_a_high_tree() {
    assert_eq!(HEIGHT_LIMIT, usize::MAX);
    let depth = 40;
    let content = format!("{}text\n", "> ".repeat(depth));
    let tree = tree_of(&content);
    assert_eq!(tree.end_byte, content.len());
    assert_eq!(height(&tree), depth + 3);
}

#[test]
fn no_tree_from_the_parser_is_a_parse_failure() {
    assert_eq!(parse("text\n", None), Err(NotebookError::ParseFailure));
}

#[test]
fn the_tree_of_another_text_is_a_parse_failure() {
    let other = "a much longer text than the one it is taken for\n";
    assert_eq!(parse("text\n", parsed(other)), Err(NotebookError::ParseFailure));
}

fn assert_copies(copy: &SyntaxNode, node: tree_sitter::Node) {
    assert_eq!(copy.kind, node.kind());
    assert_eq!(copy.start_byte, node.start_byte());
    assert_eq!(copy.end_byte, node.end_byte());
    assert_eq!((copy.start.row, copy.start.column), (node.start_position().row, node.start_position().column));
    assert_eq!((copy.end.row, copy.end.column), (node.end_position().row, node.end_position().column));
    assert_eq!(copy.children.len(), node.child_count());
    for (i, child) in copy.children.iter().enumerate() {
        assert_copies(child, node.child(i).unwrap());
    }
}

#[test]
fn the_tree_is_the_copy_of_the_parsers_tree() {
    let content = "# T\n\n```sh\necho héllo\n```\n\n> - *a* `b`\n>\n>   ```\n>   c\n>   ```\n";
    let given = parsed(content).unwrap();
    let copy = parse(content, Some(given.clone())).unwrap();
    assert_copies(&copy, given.root_node());
    assert!(copy.children.len() > 1);
    let mut ids = Vec::new();
    all_ids(&copy, &mut ids);
    let total = ids.len();
    ids.sort();
    ids.dedup();
    assert_eq!(ids.len(), total);
}

#[test]
fn the_tree_is_that_of_the_text() {
    let content = "# T\n\n```sh\necho héllo\n```\n";
    let tree = tree_of(content);
    assert_eq!(tree.kind, "document");
    assert_eq!(tree.start_byte, 0);
    assert_eq!(tree.end_byte, content.len());
    assert_eq!(tree.children.len(), 2);
    let heading = &tree.children[0];
    assert_eq!(heading.kind, "atx_heading");
    assert_eq!((heading.start, heading.end), (Point { row: 0, column: 0 }, Point { row: 0, column: 3 }));
    let fence = &tree.children[1];
    assert_eq!(fence.kind, "fenced_code_block");
    assert_eq!((fence.start_byte, fence.end_byte), (5, 26));
    assert_eq!((fence.start, fence.end), (Point { row: 2, column: 0 }, Point { row: 4, column: 3 }));
    assert_eq!(fence.children.len(), 2);
    assert_eq!(fence.children[0].kind, "info_string");
    assert_eq!(fence.children[1].kind, "code_fence_content");
    assert_eq!(fence.children[1].children[0].kind, "text");
    assert_eq!(count(&tree), 10);
}

#[test]
fn a_parsed_tree_fits_its_text() {
    let content = "é\n\n```sh\necho héllo\n```\n> ```\n> ü\n> ```\n";
    let tree = tree_of(content);
    assert!(fits_text(&tree, content));
    assert!(matches!(accept_tree(tree, content), Ok(_)));
}

#[test]
fn a_tree_that_does_not_fit_is_a_parse_failure() {
    let tree = tree_of("```sh\necho hello\n```\n");
    assert!(matches!(accept_tree(tree, "```sh\n"), Err(NotebookError::ParseFailure)));
}

#[test]
fn the_empty_text_has_a_tree_without_blocks() {
    let tree = tree_of("");
    assert_eq!(tree.kind, "document");
    assert!(code_actions(&tree, "").is_empty());
}

#[test]
fn every_node_of_a_parsed_tree_resolves_to_itself() {
    let content = "# T\n\n```sh\necho hi\n```\n\ntext *more*\n";
    let tree = tree_of(content);
    let mut ids = Vec::new();
    all_ids(&tree, &mut ids);
    assert_eq!(ids.len(), count(&tree));
    for id in ids {
        assert_eq!(node_by_id(&tree, id).unwrap().id, id);
    }
}

#[test]
fn reads_label_and_content_of_a_parsed_block() {
    let content = "```sh\necho héllo\nls\n```\n";
    let tree = tree_of(content);
    let mut blocks = Vec::new();
    collect_codeblocks(&tree, &mut blocks);
    assert_eq!(blocks.len(), 1);
    assert_eq!(info_string(blocks[0], content), "sh");
    assert_eq!(code_content(blocks[0], content), "echo héllo\nls");
}

#[test]
fn a_block_without_label_or_content_reads_as_empty() {
    let content = "```\n```\n";
    let tree = tree_of(content);
    let mut blocks = Vec::new();
    collect_codeblocks(&tree, &mut blocks);
    assert_eq!(blocks.len(), 1);
    assert_eq!(info_string(blocks[0], content), "");
    assert_eq!(code_content(blocks[0], content), "");
}

#[test]
fn finds_blocks_inside_quotes_and_lists() {
    let content = "> ```sh\n> a\n> ```\n\n- item\n\n  ```py\n  b\n  ```\n\n```rb\nc\n```\n";
    let tree = tree_of(content);
    let mut blocks = Vec::new();
    collect_codeblocks(&tree, &mut blocks);
    let labels: Vec<String> = blocks.iter().map(|b| info_string(b, content)).collect();
    assert_eq!(labels, vec!["sh", "py", "rb"]);
}

#[test]
fn a_single_fence_is_run_and_its_output_inserted_behind_it() {
    let content = "```sh\necho hi\n```\n";
    let uri = "file:///notes.md";
    let mut store = DocumentStore::new();
    store.put(uri, content, parsed(content)).unwrap();
    let state = store.get(uri).unwrap();

    let mut blocks = Vec::new();
    collect_codeblocks(state.tree(), &mut blocks);
    assert_eq!(blocks.len(), 1);
    let actions = state.actions();
    assert_eq!(actions.len(), 1);
    assert!(actions[0].1.is_none());

    let lenses = lenses(state);
    assert_eq!(lenses.len(), 1);
    assert_eq!(lenses[0].arguments.len(), 2);
    let request = RunAction::from_arguments(&lenses[0].arguments).unwrap();
    let pending = store.prepare_run(&request).unwrap().unwrap();
    assert_eq!(pending.code, "echo hi");
    assert!(!pending.replaces);

    let execution =
        Execution::Finished { status: "exit status: 0".to_string(), output: "hi\n".to_string() };
    let edit = complete_run(&pending, &execution).unwrap();
    assert_eq!(edit.range, Range { start: at(2, 3), end: at(2, 3) });
    assert_eq!(edit.new_text, "\n```output exit status: 0\nhi\n\n```");
    assert_eq!(apply(content, &edit), "```sh\necho hi\n```\n```output exit status: 0\nhi\n\n```\n");
}

#[test]
fn a_rerun_replaces_exactly_the_old_output_block() {
    let content = "before\n\n```sh\necho hi\n```\n```output\nstale\n```\n\nafter\n";
    let uri = "file:///notes.md";
    let mut store = DocumentStore::new();
    store.put(uri, content, parsed(content)).unwrap();
    let state = store.get(uri).unwrap();

    let actions = state.actions();
    assert_eq!(actions.len(), 1);
    let output = actions[0].1.unwrap();
    assert_eq!(node_range(output), Range { start: at(5, 0), end: at(7, 3) });

    let lenses = lenses(state);
    assert_eq!(lenses.len(), 1);
    assert_eq!(lenses[0].range, Range { start: at(2, 0), end: at(4, 3) });
    assert_eq!(
        lenses[0].arguments,
        vec![
            Argument::Text(uri.to_string()),
            Argument::Number(actions[0].0.id as u64),
            Argument::Number(output.id as u64),
        ]
    );
    let request = RunAction::from_arguments(&lenses[0].arguments).unwrap();
    let pending = store.prepare_run(&request).unwrap().unwrap();
    assert_eq!(pending.code, "echo hi");
    assert!(pending.replaces);

    let execution =
        Execution::Finished { status: "exit status: 0".to_string(), output: "hi\n".to_string() };
    let edit = complete_run(&pending, &execution).unwrap();
    assert_eq!(edit.range, Range { start: at(5, 0), end: at(7, 3) });
    assert_eq!(edit.new_text, "```output exit status: 0\nhi\n\n```");
    assert_eq!(
        apply(content, &edit),
        "before\n\n```sh\necho hi\n```\n```output exit status: 0\nhi\n\n```\n\nafter\n"
    );
}

#[test]
fn two_output_fences_alone_give_one_action() {
    let content = "```output\na\n```\n```output\nb\n```\n";
    let tree = tree_of(content);
    let actions = code_actions(&tree, content);
    assert_eq!(actions.len(), 1);
    assert_eq!(code_content(actions[0].0, content), "a");
    assert_eq!(code_content(actions[0].1.unwrap(), content), "b");
}

#[test]
fn a_recorded_output_block_is_not_labelled_as_output() {
    let content = "```sh\necho hi\n```\n```output exit status: 0\nhi\n\n```\n";
    let tree = tree_of(content);
    let actions = code_actions(&tree, content);
    assert_eq!(actions.len(), 2);
    assert!(actions[0].1.is_none());
    assert!(actions[1].1.is_none());
    assert_eq!(info_string(actions[1].0, content), "output exit status: 0");
}

#[test]
fn addresses_of_an_earlier_text_do_not_resolve_to_other_nodes() {
    let uri = "file:///notes.md";
    let mut store = DocumentStore::new();
    store.put(uri, "```sh\necho hi\n```\n", parsed("```sh\necho hi\n```\n")).unwrap();
    let request = RunAction::from_arguments(&lenses(store.get(uri).unwrap())[0].arguments).unwrap();
    store.put(uri, "no code here\n", parsed("no code here\n")).unwrap();
    match store.prepare_run(&request) {
        Err(NotebookError::AddressNotFound) => {}
        Ok(Some(pending)) => {
            let state = store.get(uri).unwrap();
            let node = node_by_id(state.tree(), request.source).unwrap();
            assert_eq!(node.id, request.source);
            assert_eq!(pending.code, code_content(node, state.text()));
        }
        other => panic!("{:?}", other),
    }
}

#[test]
fn a_tree_out_of_order_is_not_accepted() {
    let mut tree = tree_of("one\n\ntwo\n");
    assert!(tree.children.len() >= 2);
    tree.children.swap(0, 1);
    assert!(matches!(accept_tree(tree, "one\n\ntwo\n"), Err(NotebookError::ParseFailure)));
}
