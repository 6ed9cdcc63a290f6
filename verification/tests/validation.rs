use markdown_core::ast::{Document, Node, NodeKind, Span};
use markdown_core::validation::{validated, MAX_DEPTH, MAX_NODES, MAX_SOURCE_BYTES};

fn node(kind: NodeKind, children: Vec<Node>) -> Node {
    Node::new(Span { start: 0, end: 0 }, kind, children)
}

fn container(children: Vec<Node>) -> Node {
    node(NodeKind::Paragraph, children)
}

fn document(source: &str, children: Vec<Node>) -> Document {
    Document {
        source: source.into(),
        children,
    }
}

fn many(n: usize) -> Vec<Node> {
    (0..n).map(|_| container(vec![])).collect()
}

#[test]
fn limits_apply_to_every_node() {
    assert_eq!((MAX_SOURCE_BYTES, MAX_NODES, MAX_DEPTH), (65536, 16384, 64));
    let mut doc = document("", many(16_384));
    assert!(validated(&doc).is_ok());

    doc.children.push(container(vec![]));
    assert_eq!(validated(&doc).err(), Some("resource_limit"));

    let mut root = container(vec![]);
    for _ in 1..64 {
        root = container(vec![root]);
    }
    doc.children = vec![root];
    assert_eq!(validated(&doc).map(|nodes| nodes.len()), Ok(64));

    let deep = doc.children.pop().unwrap();
    doc.children = vec![container(vec![deep])];
    assert_eq!(validated(&doc).err(), Some("resource_limit"));

    doc.children.clear();
    doc.source = "x".repeat(65_536);
    assert!(validated(&doc).is_ok());

    doc.source.push('x');
    assert_eq!(validated(&doc).err(), Some("resource_limit"));
}

#[test]
fn descendants_count_toward_the_node_limit() {
    let doc = document("", vec![container(many(16_383))]);
    assert_eq!(validated(&doc).map(|nodes| nodes.len()), Ok(16_384));
    let doc = document("", vec![container(many(16_384))]);
    assert_eq!(validated(&doc).err(), Some("resource_limit"));
}

#[test]
fn nodes_come_back_in_preorder() {
    let text = |s: usize, e: usize, v: &str| Node::leaf(Span { start: s, end: e }, NodeKind::text(v));
    let para = Node::new(
        Span { start: 0, end: 5 },
        NodeKind::Paragraph,
        vec![text(0, 2, "ab"), Node::new(Span { start: 2, end: 5 }, NodeKind::Emphasis, vec![text(3, 4, "c")])],
    );
    let doc = document("ab*c*\nd", vec![para, text(6, 7, "d")]);
    let nodes = validated(&doc).unwrap();
    let spans: Vec<(usize, usize)> = nodes.iter().map(|n| (n.span.start, n.span.end)).collect();
    assert_eq!(spans, vec![(0, 5), (0, 2), (2, 5), (3, 4), (6, 7)]);
}

#[test]
fn malformed_nodes_are_invalid() {
    // A child outside its parent's span.
    let doc = document(
        "abcdef",
        vec![Node::new(
            Span { start: 0, end: 2 },
            NodeKind::Paragraph,
            vec![Node::leaf(Span { start: 1, end: 3 }, NodeKind::text("bc"))],
        )],
    );
    assert_eq!(validated(&doc).err(), Some("invalid_node"));
    // A reversed span.
    let doc = document("abc", vec![Node::leaf(Span { start: 2, end: 1 }, NodeKind::Paragraph)]);
    assert_eq!(validated(&doc).err(), Some("invalid_node"));
    // A span past the end of the source.
    let doc = document("abc", vec![Node::leaf(Span { start: 0, end: 4 }, NodeKind::Paragraph)]);
    assert_eq!(validated(&doc).err(), Some("invalid_node"));
    // A span inside a multi-byte character.
    let doc = document("é", vec![Node::leaf(Span { start: 0, end: 1 }, NodeKind::Paragraph)]);
    assert_eq!(validated(&doc).err(), Some("invalid_node"));
    // A heading level outside 1 to 6.
    let doc = document("", vec![node(NodeKind::Heading { level: 7 }, vec![])]);
    assert_eq!(validated(&doc).err(), Some("invalid_node"));
    // A leaf kind with children.
    let doc = document("", vec![node(NodeKind::Softbreak, vec![container(vec![])])]);
    assert_eq!(validated(&doc).err(), Some("invalid_node"));
}

#[test]
fn the_first_failure_in_preorder_decides() {
    // The invalid heading comes before the over-deep chain in preorder.
    let mut deep = container(vec![]);
    for _ in 1..70 {
        deep = container(vec![deep]);
    }
    let doc = document("", vec![node(NodeKind::Heading { level: 0 }, vec![]), deep]);
    assert_eq!(validated(&doc).err(), Some("invalid_node"));
    let mut deep = container(vec![]);
    for _ in 1..70 {
        deep = container(vec![deep]);
    }
    let doc = document("", vec![deep, node(NodeKind::Heading { level: 0 }, vec![])]);
    assert_eq!(validated(&doc).err(), Some("resource_limit"));
    let doc = document("", vec![node(NodeKind::Heading { level: 6 }, vec![container(vec![])])]);
    assert_eq!(validated(&doc).map(|nodes| nodes.len()), Ok(2));
}
