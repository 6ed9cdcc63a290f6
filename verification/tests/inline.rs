use markdown_core::inline::{
    accept_inline_match, inhibit, text_segments, Bracket, BracketInfo, InlineInput, References, Segment, TextInput,
};
use markdown_core::source::SourceView;

fn bracket(active: bool, inhibit_on_inner: bool, token: usize) -> Bracket {
    Bracket {
        info: BracketInfo { active },
        inhibit_on_inner,
        bottom: token * 2,
        token,
    }
}

#[test]
fn inhibiting_deactivates_only_brackets_that_ask_for_it() {
    let mut brackets = vec![bracket(true, true, 0), bracket(true, false, 1), bracket(false, false, 2), bracket(false, true, 3)];
    inhibit(&mut brackets);
    let state: Vec<(bool, bool, usize, usize)> = brackets
        .iter()
        .map(|b| (b.info.active, b.inhibit_on_inner, b.bottom, b.token))
        .collect();
    assert_eq!(
        state,
        vec![(false, true, 0, 0), (true, false, 2, 1), (false, false, 4, 2), (false, true, 6, 3)]
    );
}

#[test]
fn the_first_definition_of_a_label_wins() {
    let mut references = References::new();
    assert!(references.get("a").is_none());
    references.define("a".into(), "/one".into(), None);
    references.define("b".into(), "/two".into(), Some("Two".into()));
    references.define("a".into(), "/three".into(), Some("Three".into()));
    assert_eq!(references.get("a"), Some(&("/one".to_string(), None)));
    assert_eq!(
        references.get("b"),
        Some(&("/two".to_string(), Some("Two".to_string())))
    );
    assert!(references.get("A").is_none());
}

#[test]
fn inputs_show_the_tail_and_the_range_of_the_view() {
    let source = SourceView::new("héllo [x]");
    let mut references = References::new();
    references.define("x".into(), "/x".into(), None);
    let input = InlineInput {
        source: &source,
        position: 3,
        bracket: Some(BracketInfo { active: true }),
        inside_brackets: true,
        trailing_text: "h",
        references: &references,
    };
    assert_eq!(input.tail(), "llo [x]");
    assert_eq!(input.reference("x"), Some(&("/x".to_string(), None)));
    assert!(input.reference("y").is_none());
    let text = TextInput {
        source: &source,
        range: 1..5,
        after_decoded_text: false,
    };
    assert_eq!(text.text(), "éll");
}

#[test]
fn inline_matches_must_end_after_the_position_on_a_boundary() {
    let source = SourceView::new("aé!");
    assert!(accept_inline_match(&source, 0, 1).is_ok());
    assert!(accept_inline_match(&source, 1, 1).is_err());
    assert!(accept_inline_match(&source, 1, 2).is_err());
    assert!(accept_inline_match(&source, 1, 3).is_ok());
    assert!(accept_inline_match(&source, 3, 5).is_err());
    assert!(accept_inline_match(&source, 3, 4).is_ok());
}

#[test]
fn text_matches_split_a_token_into_text_and_matches() {
    let source = SourceView::new("ab cd éf");
    assert_eq!(
        text_segments(&source, 0..9, &[1..2, 3..5]),
        Ok(vec![
            Segment::Text { start: 0, end: 1 },
            Segment::Match { index: 0 },
            Segment::Text { start: 2, end: 3 },
            Segment::Match { index: 1 },
            Segment::Text { start: 5, end: 9 },
        ])
    );
    assert_eq!(
        text_segments(&source, 3..5, &[3..5]),
        Ok(vec![Segment::Match { index: 0 }])
    );
    assert_eq!(
        text_segments(&source, 0..9, &[]),
        Ok(vec![Segment::Text { start: 0, end: 9 }])
    );
    // Out of order, empty, past the token, and off a character boundary.
    assert!(text_segments(&source, 0..9, &[3..5, 1..2]).is_err());
    assert!(text_segments(&source, 0..9, &[2..2]).is_err());
    assert!(text_segments(&source, 0..5, &[3..6]).is_err());
    assert!(text_segments(&source, 0..9, &[6..7]).is_err());
}
