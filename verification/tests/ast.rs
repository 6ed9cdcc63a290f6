use markdown_core::ast::{LinkForm, Node, NodeKind, Span};

#[test]
fn shapes_allow_children_only_in_containers() {
    assert!(NodeKind::Paragraph.valid_shape(true));
    assert!(NodeKind::Heading { level: 1 }.valid_shape(true));
    assert!(NodeKind::Heading { level: 6 }.valid_shape(false));
    assert!(!NodeKind::Heading { level: 0 }.valid_shape(false));
    assert!(!NodeKind::Heading { level: 7 }.valid_shape(true));
    assert!(NodeKind::text("x").valid_shape(false));
    assert!(!NodeKind::text("x").valid_shape(true));
    assert!(!NodeKind::Softbreak.valid_shape(true));
    assert!(NodeKind::Link {
        destination: "/".into(),
        title: None,
        form: LinkForm::Autolink
    }
    .valid_shape(true));
    assert!(NodeKind::Extension {
        name: "math".into(),
        data: serde_json::Value::Null
    }
    .valid_shape(true));
    assert!(!NodeKind::InlineCode { literal: "x".into() }.valid_shape(true));
}

#[test]
fn nodes_hold_their_span_kind_and_children() {
    let leaf = Node::leaf(Span { start: 1, end: 2 }, NodeKind::text("b"));
    assert!(leaf.children.is_empty());
    assert_eq!(leaf.kind, NodeKind::Text { value: "b".into() });
    let parent = Node::new(Span { start: 0, end: 3 }, NodeKind::Emphasis, vec![leaf]);
    assert_eq!(parent.span, Span { start: 0, end: 3 });
    assert_eq!(parent.children.len(), 1);
    assert_eq!(parent.children[0].span.start, 1);
}

#[test]
fn cloning_a_node_copies_its_whole_subtree() {
    let inner = Node::leaf(Span { start: 1, end: 2 }, NodeKind::text("b"));
    let tree = Node::new(
        Span { start: 0, end: 3 },
        NodeKind::Strong,
        vec![Node::new(Span { start: 1, end: 2 }, NodeKind::Emphasis, vec![inner])],
    );
    let copy = tree.clone();
    assert_eq!(copy, tree);
    assert_eq!(copy.children[0].children[0].kind, NodeKind::Text { value: "b".into() });
}
