use markdown_core::ast::{Document, Node, NodeKind, Span};
use markdown_core::encoding::{check_encodable, DecodeLimits, LimitedOutput};

fn limits() -> DecodeLimits {
    DecodeLimits { source_bytes: 16, nodes: 4, depth: 2, json_bytes: 8 }
}

fn leaf(start: usize, end: usize) -> Node {
    Node::leaf(Span { start, end }, NodeKind::text("x"))
}

fn doc(source: &str, children: Vec<Node>) -> Document {
    Document { source: source.into(), children }
}

#[test]
fn documents_within_the_limits_are_encodable() {
    let para = Node::new(Span { start: 0, end: 4 }, NodeKind::Paragraph, vec![leaf(0, 2), leaf(2, 4)]);
    assert_eq!(check_encodable(&doc("abcd", vec![para, leaf(4, 4)]), limits()), Ok(()));
    assert_eq!(check_encodable(&doc("", vec![]), limits()), Ok(()));
}

#[test]
fn each_limit_and_check_has_its_message() {
    assert_eq!(check_encodable(&doc(&"x".repeat(17), vec![]), limits()), Err("source byte limit"));
    assert_eq!(check_encodable(&doc("", (0..5).map(|_| leaf(0, 0)).collect()), limits()), Err("node limit"));
    let deep = Node::new(
        Span { start: 0, end: 0 },
        NodeKind::Paragraph,
        vec![Node::new(Span { start: 0, end: 0 }, NodeKind::Emphasis, vec![leaf(0, 0)])],
    );
    assert_eq!(check_encodable(&doc("", vec![deep]), limits()), Err("depth limit"));
    assert_eq!(check_encodable(&doc("ab", vec![leaf(1, 3)]), limits()), Err("invalid span"));
    assert_eq!(check_encodable(&doc("é", vec![leaf(0, 1)]), limits()), Err("invalid span"));
    let bad = Node::leaf(Span { start: 0, end: 0 }, NodeKind::Heading { level: 9 });
    assert_eq!(check_encodable(&doc("", vec![bad]), limits()), Err("invalid node shape"));
}

#[test]
fn later_siblings_are_checked_first() {
    // The last top-level node is taken from the stack first, so its bad span
    // is reported before the earlier node's bad shape.
    let bad_shape = Node::leaf(Span { start: 0, end: 0 }, NodeKind::Heading { level: 0 });
    assert_eq!(check_encodable(&doc("ab", vec![bad_shape, leaf(2, 1)]), limits()), Err("invalid span"));
    let bad_shape = Node::leaf(Span { start: 0, end: 0 }, NodeKind::Heading { level: 0 });
    assert_eq!(check_encodable(&doc("ab", vec![leaf(2, 1), bad_shape]), limits()), Err("invalid node shape"));
}

#[test]
fn output_stops_at_its_byte_limit() {
    let mut out = LimitedOutput { bytes: Vec::new(), limit: 5 };
    assert_eq!(out.write(b"abc"), Ok(3));
    assert_eq!(out.write(b"def"), Err("json byte limit"));
    assert_eq!(out.bytes, b"abc");
    assert_eq!(out.write(b"de"), Ok(2));
    assert_eq!(out.write(b""), Ok(0));
    assert_eq!(out.write(b"f"), Err("json byte limit"));
    assert_eq!(out.bytes, b"abcde");
}
