use lsp_notebook::order::{at_or_before, spans_in_order};
use lsp_notebook::provider::{parse, parser};
use lsp_notebook::syntax::{Point, SyntaxNode};

fn tree_of(content: &str) -> SyntaxNode {
    parse(content, parser().unwrap().parse(content, None)).unwrap()
}

fn node(bytes: (usize, usize), start: (usize, usize), end: (usize, usize), children: Vec<SyntaxNode>) -> SyntaxNode {
    SyntaxNode {
        id: bytes.0,
        kind: "text".to_string(),
        start: Point { row: start.0, column: start.1 },
        end: Point { row: end.0, column: end.1 },
        start_byte: bytes.0,
        end_byte: bytes.1,
        children,
    }
}

#[test]
fn points_are_ordered_by_row_then_column() {
    let p = |row, column| Point { row, column };
    assert!(at_or_before(p(1, 5), p(1, 5)));
    assert!(at_or_before(p(1, 5), p(1, 6)));
    assert!(at_or_before(p(1, 5), p(2, 0)));
    assert!(!at_or_before(p(1, 5), p(1, 4)));
    assert!(!at_or_before(p(2, 0), p(1, 9)));
}

#[test]
fn a_tree_laid_out_as_a_text_is_in_order() {
    let tree = node(
        (0, 20),
        (0, 0),
        (3, 0),
        vec![
            node((0, 5), (0, 0), (0, 5), vec![node((0, 0), (0, 0), (0, 0), vec![])]),
            node((5, 5), (0, 5), (0, 5), vec![]),
            node((6, 20), (1, 0), (3, 0), vec![node((8, 12), (1, 2), (2, 1), vec![])]),
        ],
    );
    assert!(spans_in_order(&tree));
}

#[test]
fn a_node_that_ends_before_it_begins_is_out_of_order() {
    assert!(!spans_in_order(&node((3, 2), (0, 3), (0, 3), vec![])));
    assert!(!spans_in_order(&node((2, 3), (1, 0), (0, 9), vec![])));
}

#[test]
fn a_child_outside_its_parent_is_out_of_order() {
    let early = node((2, 9), (0, 2), (0, 9), vec![node((1, 3), (0, 2), (0, 3), vec![])]);
    assert!(!spans_in_order(&early));
    let late = node((2, 9), (0, 2), (0, 9), vec![node((4, 10), (0, 4), (0, 9), vec![])]);
    assert!(!spans_in_order(&late));
    let rows = node((2, 9), (1, 0), (1, 7), vec![node((4, 6), (0, 4), (1, 1), vec![])]);
    assert!(!spans_in_order(&rows));
}

#[test]
fn children_that_overlap_or_swap_are_out_of_order() {
    let overlap = node(
        (0, 9),
        (0, 0),
        (0, 9),
        vec![node((0, 5), (0, 0), (0, 5), vec![]), node((4, 9), (0, 4), (0, 9), vec![])],
    );
    assert!(!spans_in_order(&overlap));
    let swapped = node(
        (0, 9),
        (0, 0),
        (0, 9),
        vec![
            node((0, 2), (0, 0), (0, 2), vec![]),
            node((6, 9), (0, 6), (0, 9), vec![]),
            node((3, 5), (0, 3), (0, 5), vec![]),
        ],
    );
    assert!(!spans_in_order(&swapped));
}

#[test]
fn disorder_deep_in_the_tree_is_found() {
    let tree = node(
        (0, 9),
        (0, 0),
        (0, 9),
        vec![node((0, 9), (0, 0), (0, 9), vec![node((5, 4), (0, 5), (0, 5), vec![])])],
    );
    assert!(!spans_in_order(&tree));
}

#[test]
fn trees_of_the_parser_are_in_order() {
    let texts = [
        "",
        "\n",
        "text",
        "# T\n\n```sh\necho héllo\n```\n```output\nhi\n```\n",
        "> quote\n> ```sh\n> ls\n> ```\n>\n> > deeper *and* `code`\n",
        "- a\n- b\n\n  ```py\n  1\n  ```\n\n1. one\n2. two\n   - nested\n",
        "\ttabbed code\n\n\t\tmore\n",
        "line one\r\nline two\r\n\r\n```\r\nx\r\n```\r\n",
        "| a | b |\n|---|---|\n| 1 | 2 |\n\n<div>\nhtml\n</div>\n\n[link](http://x.y \"t\") ![img](a.png)\n",
        "Setext\n======\n\n***\n\n    indented\n\n[ref]: http://example.com\n",
        "```\nunclosed fence\n",
        "日本語のテキスト *強調* と `コード`\n\n```言語\n内容\n```\n",
        "a\\\nb  \nc&amp;d <http://auto.link> **bold _nested_**\n",
    ];
    for text in texts {
        assert!(spans_in_order(&tree_of(text)), "{:?}", text);
    }
}
