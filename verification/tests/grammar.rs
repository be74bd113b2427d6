//! Parsing with a real grammar. Any grammar serves; this one is small.

use pine_rs::backend::{apply_change, apply_changes, can_apply, ContentChange};
use pine_rs::document::Document;
use pine_rs::imports::{load_library, LibrarySource};
use pine_rs::lsp::{Position, Range};
use pine_rs::mcp::validate;
use pine_rs::syntax::{
    child_by_field, children, children_by_field, named_children, named_descendant, parent,
};
use std::path::PathBuf;
use tree_sitter::Language;

fn language() -> Language {
    tree_sitter_json::LANGUAGE.into()
}

fn outline(doc: &Document) -> Vec<(String, usize, usize, usize)> {
    doc.tree()
        .iter()
        .map(|n| (n.kind.clone(), n.start_byte, n.end_byte, n.depth))
        .collect()
}

#[test]
fn parsing_reads_the_tree_in_preorder() {
    let doc = Document::parse(&language(), "{\"a\": [1]}\n").expect("parse");
    assert_eq!(doc.text(), "{\"a\": [1]}\n");
    assert_eq!(doc.root().kind, "document");
    assert!(!doc.has_errors());
    let kinds: Vec<&str> = doc.tree().iter().map(|n| n.kind.as_str()).collect();
    assert_eq!(
        kinds,
        vec![
            "document", "object", "{", "pair", "string", "\"", "string_content", "\"", ":", "array",
            "[", "number", "]", "}"
        ]
    );
    let pair = doc.tree().iter().position(|n| n.kind == "pair").unwrap();
    let key = &doc.tree()[pair + 1];
    assert_eq!(key.field.as_deref(), Some("key"));
    assert!(key.named);
    assert_eq!(doc.node_text(pair + 1), "\"a\"");
    let value = doc.tree().iter().find(|n| n.kind == "array").unwrap();
    assert_eq!(value.field.as_deref(), Some("value"));
    assert_eq!(value.depth, 3);
    assert!(!doc.tree()[2].named);
}

#[test]
fn valid_texts_parse_without_errors() {
    for text in ["[1, 2]\n", "{\"a\": null}\n", "\"é\"", "[true, {\"n\": []}]"] {
        let doc = Document::parse(&language(), text).expect("parse returns a tree");
        assert!(!doc.has_errors(), "expected a clean parse: {text}");
    }
}

#[test]
fn errors_are_read_from_the_tree() {
    let doc = Document::parse(&language(), "[1, }").expect("parse");
    assert!(doc.has_errors());
    assert!(doc.tree().iter().any(|n| n.error || n.missing));
    assert!(doc.root().has_error);
}

#[test]
fn rows_are_read_from_the_tree() {
    let doc = Document::parse(&language(), "[\n1,\n2\n]\n").expect("parse");
    let array = doc.tree().iter().find(|n| n.kind == "array").unwrap();
    assert_eq!((array.start_row, array.end_row), (0, 3));
}

#[test]
fn incremental_edit_equals_a_fresh_parse() {
    let mut doc = Document::parse(&language(), "{\"x\": 1}\n").unwrap();
    let one = doc.text().find('1').unwrap();
    assert!(doc.apply_edit(one, one + 1, "42"));
    assert_eq!(doc.text(), "{\"x\": 42}\n");
    let fresh = Document::parse(&language(), doc.text()).unwrap();
    assert_eq!(outline(&doc), outline(&fresh));
    assert_eq!(doc.position_at(8), (0, 8));
}

#[test]
fn edits_after_multibyte_characters() {
    let mut doc = Document::parse(&language(), "[\"😀\",\n1]\n").unwrap();
    let one = doc.text().rfind('1').unwrap();
    assert!(doc.apply_edit(one, one + 1, "2"));
    let fresh = Document::parse(&language(), doc.text()).unwrap();
    assert_eq!(outline(&doc), outline(&fresh));
    assert_eq!(doc.text(), "[\"😀\",\n2]\n");
}

#[test]
fn undoing_an_edit_restores_the_text() {
    let text = "[1, 22, 3]\n";
    let mut doc = Document::parse(&language(), text).unwrap();
    assert!(doc.apply_edit(4, 6, "\"long\""));
    assert_eq!(doc.text(), "[1, \"long\", 3]\n");
    assert!(doc.apply_edit(4, 10, "22"));
    assert_eq!(doc.text(), text);
    let fresh = Document::parse(&language(), text).unwrap();
    assert_eq!(outline(&doc), outline(&fresh));
}

#[test]
fn a_document_from_nodes_is_not_edited() {
    let parsed = Document::parse(&language(), "[1]").unwrap();
    let mut doc = Document::from_nodes("[1]".to_string(), parsed.tree().clone()).unwrap();
    assert!(!doc.apply_edit(1, 2, "2"));
    assert_eq!(doc.text(), "[1]");
    let whole = ContentChange { range: None, text: "[2]".to_string() };
    assert!(apply_change(&mut doc, &language(), &whole));
    assert!(doc.apply_edit(1, 2, "3"));
    assert_eq!(doc.text(), "[3]");
}

#[test]
fn changes_are_applied_by_range_or_as_a_whole() {
    let mut doc = Document::parse(&language(), "[\"😀\", 1]\n").unwrap();
    let range = Range {
        start: Position { line: 0, character: 7 },
        end: Position { line: 0, character: 8 },
    };
    let edit = ContentChange { range: Some(range), text: "[2]".to_string() };
    assert!(can_apply(&doc, &edit));
    assert!(apply_change(&mut doc, &language(), &edit));
    assert_eq!(doc.text(), "[\"😀\", [2]]\n");
    let whole = ContentChange { range: None, text: "null".to_string() };
    assert!(can_apply(&doc, &whole));
    assert!(apply_change(&mut doc, &language(), &whole));
    assert_eq!(doc.text(), "null");
}

#[test]
fn a_range_that_runs_backwards_cannot_be_applied() {
    let doc = Document::parse(&language(), "[1]\n").unwrap();
    let range = Range {
        start: Position { line: 0, character: 2 },
        end: Position { line: 0, character: 1 },
    };
    let edit = ContentChange { range: Some(range), text: String::new() };
    assert!(!can_apply(&doc, &edit));
}

fn edit(start: u32, end: u32, text: &str) -> ContentChange {
    let range = Range {
        start: Position { line: 0, character: start },
        end: Position { line: 0, character: end },
    };
    ContentChange { range: Some(range), text: text.to_string() }
}

#[test]
fn changes_of_a_notification_apply_one_after_the_other() {
    let mut doc = Document::parse(&language(), "[1]\n").unwrap();
    // The second range is that of the text which the first change leaves.
    assert!(apply_changes(&mut doc, &language(), &vec![edit(1, 2, "22"), edit(3, 3, ", 3")]));
    assert_eq!(doc.text(), "[22, 3]\n");
    let fresh = Document::parse(&language(), doc.text()).unwrap();
    assert_eq!(outline(&doc), outline(&fresh));
    // In the other order they lead elsewhere.
    let mut other = Document::parse(&language(), "[1]\n").unwrap();
    assert!(apply_changes(&mut other, &language(), &vec![edit(3, 3, ", 3"), edit(1, 2, "22")]));
    assert_eq!(other.text(), "[22], 3\n");
    // One list after another is both as one list.
    let mut parts = Document::parse(&language(), "[1]\n").unwrap();
    assert!(apply_changes(&mut parts, &language(), &vec![edit(1, 2, "22")]));
    assert!(apply_changes(&mut parts, &language(), &vec![edit(3, 3, ", 3")]));
    assert_eq!(parts.text(), doc.text());
    assert!(apply_changes(&mut doc, &language(), &Vec::new()));
    assert_eq!(doc.text(), "[22, 3]\n");
}

#[test]
fn changes_stop_before_one_that_cannot_be_applied() {
    let mut doc = Document::parse(&language(), "[1]\n").unwrap();
    let changes = vec![edit(1, 2, "7"), edit(2, 1, "9"), edit(0, 0, "8")];
    assert!(!apply_changes(&mut doc, &language(), &changes));
    assert_eq!(doc.text(), "[7]\n");
}

#[test]
fn a_column_past_its_line_does_not_reach_into_the_next() {
    let mut doc = Document::parse(&language(), "[1,\n2]\n").unwrap();
    assert!(apply_change(&mut doc, &language(), &edit(2, 99, ",  ")));
    assert_eq!(doc.text(), "[1,  \n2]\n");
}

#[test]
fn libraries_are_loaded_where_they_can_be_read() {
    let path = PathBuf::from("/libs/a.pine");
    let loaded = load_library(&language(), Some(path.clone()), Some("[]".to_string()));
    assert!(matches!(loaded, LibrarySource::Loaded { path: p, .. } if p == path));
    let unread = load_library(&language(), Some(path), None);
    assert!(matches!(unread, LibrarySource::NotFound));
    let refused = load_library(&language(), None, None);
    assert!(matches!(refused, LibrarySource::NotFound));
}

#[test]
fn snippets_are_parsed_before_they_are_validated() {
    assert_eq!(
        validate(&language(), "[1]"),
        "1:1: Warning: Missing `//@version=6` directive [missing-version]"
    );
    assert_eq!(validate(&language(), "\"@version=\""), "No issues found.");
}

const SAMPLE: &str = "{\"a\": [1, {\"é\": null}, \"😀\"],\n \"b\" : true }\n";

/// The nodes of the parser's own tree, in preorder, by id.
fn preorder(tree: &tree_sitter::Tree) -> Vec<usize> {
    let mut out: Vec<usize> = Vec::new();
    let mut stack = vec![tree.root_node()];
    while let Some(node) = stack.pop() {
        out.push(node.id());
        let mut cursor = node.walk();
        let mut kids: Vec<tree_sitter::Node> = node.children(&mut cursor).collect();
        kids.reverse();
        stack.extend(kids);
    }
    out
}

fn parsed(text: &str) -> tree_sitter::Tree {
    let mut parser = tree_sitter::Parser::new();
    parser.set_language(&language()).unwrap();
    parser.parse(text, None).unwrap()
}

#[test]
fn the_search_for_a_node_goes_as_the_parsers_own() {
    for text in [SAMPLE, "[1, }", "", "  [ ] ", "{\"a\" 1"] {
        let doc = Document::parse(&language(), text).unwrap();
        let tree = parsed(text);
        let ids = preorder(&tree);
        assert_eq!(ids.len(), doc.tree().len());
        for byte in 0..=text.len() {
            let own = tree.root_node().named_descendant_for_byte_range(byte, byte).unwrap();
            assert_eq!(ids[doc.named_node(byte)], own.id(), "byte {byte} of {text:?}");
            let found = named_descendant(doc.tree(), byte);
            assert_eq!(ids[found], own.id(), "byte {byte} of {text:?}");
        }
        assert_eq!(doc.named_node(usize::MAX), 0);
    }
}

#[test]
fn relations_between_nodes_go_as_the_parsers_own() {
    for text in [SAMPLE, "[1, }", "{\"a\" 1"] {
        let doc = Document::parse(&language(), text).unwrap();
        let tree = parsed(text);
        let ids = preorder(&tree);
        let mut stack = vec![tree.root_node()];
        while let Some(node) = stack.pop() {
            let i = ids.iter().position(|id| *id == node.id()).unwrap();
            let mut cursor = node.walk();
            let kids: Vec<tree_sitter::Node> = node.children(&mut cursor).collect();
            let of = |list: Vec<usize>| list.into_iter().map(|k| ids[k]).collect::<Vec<usize>>();
            assert_eq!(
                of(children(doc.tree(), i)),
                kids.iter().map(|k| k.id()).collect::<Vec<usize>>()
            );
            assert_eq!(
                of(named_children(doc.tree(), i)),
                node.named_children(&mut cursor).map(|k| k.id()).collect::<Vec<usize>>()
            );
            for field in ["key", "value", "none"] {
                assert_eq!(
                    child_by_field(doc.tree(), i, field).map(|k| ids[k]),
                    node.child_by_field_name(field).map(|k| k.id())
                );
                assert_eq!(
                    of(children_by_field(doc.tree(), i, field)),
                    node.children_by_field_name(field, &mut cursor)
                        .map(|k| k.id())
                        .collect::<Vec<usize>>()
                );
            }
            assert_eq!(
                parent(doc.tree(), i).map(|k| ids[k]),
                node.parent().map(|k| k.id())
            );
            stack.extend(kids);
        }
    }
}
