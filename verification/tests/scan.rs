use markdown_core::budget::{Budget, Limits};
use markdown_core::scan::State;
use markdown_core::source::SourceView;
use markdown_core::tokens::{Token, TokenKind};
use markdown_core::ParseError;

fn budget(tokens: usize) -> Budget {
    Budget::new(Limits { input_bytes: 100, work: 100, tokens, nodes: 100, depth: 10 })
}

fn describe(tokens: &[Token<u8>]) -> Vec<(usize, usize, String)> {
    tokens
        .iter()
        .map(|t| {
            let kind = match &t.kind {
                TokenKind::Text(v) => format!("text:{v}"),
                TokenKind::Marker(v) => format!("marker:{v}"),
                TokenKind::Empty => "empty".to_string(),
                TokenKind::Other(o) => format!("other:{o}"),
            };
            (t.start, t.end, kind)
        })
        .collect()
}

#[test]
fn literal_text_joins_the_text_token_before_it() {
    let source = SourceView::new("ab*cd");
    let mut b = budget(2);
    let mut state: State<u8> = State::new(&source);
    assert_eq!(state.literal(&mut b, 1), Ok(()));
    state.position = 1;
    assert_eq!(state.literal(&mut b, 2), Ok(()));
    state.position = 2;
    assert_eq!(state.push(&mut b, 2, 3, TokenKind::Other(7)), Ok(()));
    state.position = 3;
    assert_eq!(state.literal(&mut b, 5), Err(ParseError::Limit { limit: "tokens" }));
    assert_eq!(describe(&state.tokens), vec![(0, 2, "text:ab".to_string()), (2, 3, "other:7".to_string())]);
}

#[test]
fn every_token_made_counts_against_the_limit() {
    let source = SourceView::new("é*");
    let mut b = budget(1);
    let mut state: State<u8> = State::new(&source);
    assert_eq!(state.literal(&mut b, 2), Ok(()));
    assert_eq!(state.push(&mut b, 2, 3, TokenKind::Marker("*".into())), Err(ParseError::Limit { limit: "tokens" }));
    assert_eq!(describe(&state.tokens), vec![(0, 2, "text:é".to_string())]);
    assert_eq!(state.position, 0);
}
