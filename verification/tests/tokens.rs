use markdown_core::tokens::{join_text_tokens, Token, TokenKind};

fn text(start: usize, end: usize, v: &str) -> Token<u8> {
    Token { start, end, kind: TokenKind::Text(v.into()) }
}

fn describe(tokens: &[Token<u8>]) -> Vec<(usize, usize, String)> {
    tokens
        .iter()
        .map(|t| {
            let kind = match &t.kind {
                TokenKind::Text(v) => format!("text:{v}"),
                TokenKind::Marker(v) => format!("marker:{v}"),
                TokenKind::Empty => "empty".to_string(),
                TokenKind::Other(o) => format!("other:{o}"),
            };
            (t.start, t.end, kind)
        })
        .collect()
}

#[test]
fn touching_text_joins_and_markers_become_text() {
    let tokens = vec![
        text(0, 2, "ab"),
        Token { start: 2, end: 3, kind: TokenKind::Marker("*".into()) },
        Token { start: 3, end: 3, kind: TokenKind::Empty },
        text(3, 4, "c"),
        Token { start: 4, end: 6, kind: TokenKind::Other(7) },
        text(6, 7, "d"),
        text(8, 9, "e"),
    ];
    assert_eq!(
        describe(&join_text_tokens(tokens)),
        vec![
            (0, 4, "text:ab*c".to_string()),
            (4, 6, "other:7".to_string()),
            (6, 7, "text:d".to_string()),
            (8, 9, "text:e".to_string()),
        ]
    );
    assert!(join_text_tokens::<u8>(vec![]).is_empty());
}
