use markdown_core::ast::{Node, NodeKind, Span};
use markdown_core::budget::{Budget, Limits};
use markdown_core::source::SourceView;
use markdown_core::tokens::{Token, TokenKind};
use markdown_core::tree::{build, Structure};
use markdown_core::ParseError;

fn budget(work: usize, depth: usize) -> Budget {
    Budget::new(Limits { input_bytes: 100, work, tokens: 100, nodes: 100, depth })
}

fn text(start: usize, end: usize, v: &str) -> Token<Structure> {
    Token { start, end, kind: TokenKind::Text(v.into()) }
}

fn open(start: usize, end: usize, kind: NodeKind) -> Token<Structure> {
    Token { start, end, kind: TokenKind::Other(Structure::Open(kind)) }
}

fn close(start: usize, end: usize) -> Token<Structure> {
    Token { start, end, kind: TokenKind::Other(Structure::Close) }
}

fn leaf(start: usize, end: usize, v: &str) -> Node {
    Node { span: Span { start, end }, kind: NodeKind::Text { value: v.into() }, children: vec![] }
}

#[test]
fn an_opener_and_closer_nest_the_tokens_between_them() {
    let source = SourceView::new("x*y*");
    let tokens = vec![text(0, 1, "x"), open(1, 2, NodeKind::Emphasis), text(2, 3, "y"), close(3, 4)];
    let mut b = budget(10, 5);
    let nodes = build(tokens, &source, &mut b).unwrap();
    assert_eq!(
        nodes,
        vec![
            leaf(0, 1, "x"),
            Node { span: Span { start: 1, end: 4 }, kind: NodeKind::Emphasis, children: vec![leaf(2, 3, "y")] },
        ]
    );
    assert_eq!(b.spend(6), Ok(()));
    assert_eq!(b.spend(1), Err(ParseError::Limit { limit: "work" }));
}

#[test]
fn text_after_text_and_markers_is_appended_and_empty_tokens_vanish() {
    let source = SourceView::new("a*b");
    let tokens = vec![
        text(0, 1, "a"),
        Token { start: 1, end: 1, kind: TokenKind::Empty },
        text(1, 1, ""),
        Token { start: 1, end: 2, kind: TokenKind::Marker("*".into()) },
        text(2, 3, "b"),
    ];
    let nodes = build(tokens, &source, &mut budget(10, 5)).unwrap();
    assert_eq!(nodes, vec![leaf(0, 3, "a*b")]);
}

#[test]
fn atoms_keep_their_children_and_spans_map_to_the_original() {
    let source = SourceView::new("a\r\nb");
    let inner = vec![leaf(3, 4, "b")];
    let tokens = vec![
        text(0, 1, "a"),
        Token { start: 1, end: 2, kind: TokenKind::Other(Structure::Atom(NodeKind::Softbreak, vec![])) },
        Token { start: 2, end: 3, kind: TokenKind::Other(Structure::Atom(NodeKind::Strong, inner.clone())) },
    ];
    let nodes = build(tokens, &source, &mut budget(10, 5)).unwrap();
    assert_eq!(
        nodes,
        vec![
            leaf(0, 1, "a"),
            Node { span: Span { start: 1, end: 3 }, kind: NodeKind::Softbreak, children: vec![] },
            Node { span: Span { start: 3, end: 4 }, kind: NodeKind::Strong, children: inner },
        ]
    );
}

#[test]
fn unbalanced_openers_and_closers_are_internal_errors() {
    let source = SourceView::new("*a");
    let unclosed = vec![open(0, 1, NodeKind::Emphasis), text(1, 2, "a")];
    assert_eq!(build(unclosed, &source, &mut budget(10, 5)), Err(ParseError::InternalError));
    let unopened = vec![text(0, 1, "*"), close(1, 2)];
    assert_eq!(build(unopened, &source, &mut budget(10, 5)), Err(ParseError::InternalError));
}

#[test]
fn nesting_and_work_are_limited() {
    let source = SourceView::new("**a");
    let deep = vec![open(0, 1, NodeKind::Emphasis), open(1, 2, NodeKind::Emphasis), text(2, 3, "a")];
    assert_eq!(build(deep, &source, &mut budget(10, 1)), Err(ParseError::Limit { limit: "depth" }));
    let long = vec![text(0, 1, "*"), text(1, 2, "*"), text(2, 3, "a")];
    assert_eq!(build(long, &source, &mut budget(2, 5)), Err(ParseError::Limit { limit: "work" }));
}
