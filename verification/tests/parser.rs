use markdown_core::ast::{Node, NodeKind, Span};
use markdown_core::budget::{Budget, Limits};
use markdown_core::parser::{check_input, checked_document};
use markdown_core::ParseError;

fn limits(work: usize, nodes: usize, depth: usize) -> Limits {
    Limits { input_bytes: 4, work, tokens: 100, nodes, depth }
}

fn node(start: usize, end: usize, kind: NodeKind, children: Vec<Node>) -> Node {
    Node { span: Span { start, end }, kind, children }
}

fn text(start: usize, end: usize, v: &str) -> Node {
    node(start, end, NodeKind::Text { value: v.into() }, vec![])
}

#[test]
fn the_input_is_limited_in_bytes() {
    assert_eq!(check_input("abcd", &limits(1, 1, 1)), Ok(()));
    assert_eq!(check_input("abcde", &limits(1, 1, 1)), Err(ParseError::Limit { limit: "input_bytes" }));
    assert_eq!(check_input("ééé", &limits(1, 1, 1)), Err(ParseError::Limit { limit: "input_bytes" }));
}

#[test]
fn a_well_formed_tree_becomes_the_document_and_spends_one_unit_per_node() {
    let children = vec![node(0, 4, NodeKind::Paragraph, vec![text(0, 2, "ab"), text(2, 4, "cd")])];
    let mut budget = Budget::new(limits(10, 3, 2));
    let document = checked_document("abcd", children.clone(), &mut budget, &[]).unwrap();
    assert_eq!(document.source, "abcd");
    assert_eq!(document.children, children);
    assert_eq!(budget.spend(7), Ok(()));
    assert_eq!(budget.spend(1), Err(ParseError::Limit { limit: "work" }));
}

#[test]
fn node_count_depth_and_work_are_limited() {
    let children = vec![node(0, 4, NodeKind::Paragraph, vec![text(0, 2, "ab"), text(2, 4, "cd")])];
    let mut budget = Budget::new(limits(10, 2, 2));
    assert_eq!(
        checked_document("abcd", children.clone(), &mut budget, &[]),
        Err(ParseError::Limit { limit: "tokens" })
    );
    let mut budget = Budget::new(limits(10, 3, 1));
    assert_eq!(
        checked_document("abcd", children.clone(), &mut budget, &[]),
        Err(ParseError::Limit { limit: "depth" })
    );
    let mut budget = Budget::new(limits(2, 3, 2));
    assert_eq!(checked_document("abcd", children, &mut budget, &[]), Err(ParseError::Limit { limit: "work" }));
}

#[test]
fn spans_must_nest_on_character_boundaries_and_shapes_must_hold() {
    let outside = vec![node(0, 2, NodeKind::Paragraph, vec![text(1, 3, "bc")])];
    assert_eq!(
        checked_document("abcd", outside, &mut Budget::new(limits(10, 10, 5)), &[]),
        Err(ParseError::InternalError)
    );
    let split = vec![text(0, 1, "é")];
    assert_eq!(
        checked_document("é", split, &mut Budget::new(limits(10, 10, 5)), &[]),
        Err(ParseError::InternalError)
    );
    let heading = vec![node(0, 1, NodeKind::Heading { level: 7 }, vec![])];
    assert_eq!(
        checked_document("a", heading, &mut Budget::new(limits(10, 10, 5)), &[]),
        Err(ParseError::InternalError)
    );
    let text_with_children = vec![node(0, 1, NodeKind::Text { value: "a".into() }, vec![text(0, 1, "a")])];
    assert_eq!(
        checked_document("a", text_with_children, &mut Budget::new(limits(10, 10, 5)), &[]),
        Err(ParseError::InternalError)
    );
}

#[test]
fn extension_nodes_need_a_registered_name() {
    let ext = || vec![node(0, 1, NodeKind::Extension { name: "math".into(), data: serde_json::Value::Null }, vec![])];
    let names = vec!["math".to_string()];
    assert!(checked_document("a", ext(), &mut Budget::new(limits(10, 10, 5)), &names).is_ok());
    let other = vec!["mermaid".to_string()];
    assert_eq!(
        checked_document("a", ext(), &mut Budget::new(limits(10, 10, 5)), &other),
        Err(ParseError::InternalError)
    );
}
