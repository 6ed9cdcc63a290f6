use markdown_core::ast::Span;
use markdown_core::source::SourceView;

#[derive(Debug, PartialEq)]
struct ParentState(&'static str);
#[derive(Debug, PartialEq)]
struct OtherExtension(u32);

#[test]
fn context_is_inherited_across_views_without_changing_parent_or_siblings() {
    let mut source = SourceView::new("a\tb\r\n");
    source.set_context(ParentState("outer"));
    source.set_context(OtherExtension(42));
    let mut child = source.join(&[0..4]).unwrap().expand_tabs().restore_tabs();
    let sibling = source.join(&[2..4]).unwrap();
    child.set_context(ParentState("inner"));
    let nested = child.join(&[0..1, 2..4]).unwrap();

    assert_eq!(source.context::<ParentState>(), Some(&ParentState("outer")));
    assert_eq!(
        sibling.context::<ParentState>(),
        Some(&ParentState("outer"))
    );
    assert_eq!(nested.context::<ParentState>(), Some(&ParentState("inner")));
    assert_eq!(
        nested.context::<OtherExtension>(),
        Some(&OtherExtension(42))
    );
    assert_eq!(child.context.len(), 2);
    assert_eq!(nested.text(), "ab\n");
    assert_eq!(nested.span_for(1..3).unwrap(), Span { start: 2, end: 5 });
    assert!(
        SourceView::new("next parse")
            .context::<ParentState>()
            .is_none()
    );
}

#[test]
fn new_normalizes_line_endings_and_nul() {
    let view = SourceView::new("a\r\nb\rc\0d");
    assert_eq!(view.text(), "a\nb\nc\u{fffd}d");
    // View bytes: a, LF (from CR LF), b, LF (from lone CR), c, U+FFFD (3 bytes), d.
    assert_eq!(view.span_for(0..1).unwrap(), Span { start: 0, end: 1 });
    assert_eq!(view.span_for(1..2).unwrap(), Span { start: 1, end: 3 });
    assert_eq!(view.span_for(3..4).unwrap(), Span { start: 4, end: 5 });
    assert_eq!(view.span_for(4..5).unwrap(), Span { start: 5, end: 6 });
    assert_eq!(view.span_for(5..8).unwrap(), Span { start: 6, end: 7 });
    assert_eq!(view.span_for(8..9).unwrap(), Span { start: 7, end: 8 });
    assert!(view.span_for(6..8).is_err());
}

#[test]
fn span_for_rejects_reversed_and_split_ranges() {
    let view = SourceView::new("é!");
    assert!(view.span_for(2..1).is_err());
    assert!(view.span_for(1..2).is_err());
    assert!(view.span_for(0..1).is_err());
    assert!(view.span_for(0..4).is_err());
    assert_eq!(view.span_for(0..2).unwrap(), Span { start: 0, end: 2 });
    assert!(view.join(&[0..2, 1..3]).is_err());
    assert_eq!(view.join(&[2..3, 0..2]).unwrap().text(), "!é");
}

#[test]
fn expand_tabs_advances_to_multiples_of_four_columns() {
    let view = SourceView::new("a\tb\n\tx\u{e9}\tz");
    let expanded = view.expand_tabs();
    assert_eq!(expanded.text(), "a   b\n    xé  z");
    // The tab after "a" maps to original 1..2; its interior spaces map to 1.
    assert_eq!(expanded.span_for(1..4).unwrap(), Span { start: 1, end: 2 });
    assert_eq!(expanded.span_for(2..3).unwrap(), Span { start: 1, end: 1 });
    assert_eq!(expanded.literal(0..5), "a\tb");
    // A range that keeps only part of a tab expansion keeps its spaces.
    assert_eq!(expanded.literal(2..5), "  b");
    let restored = expanded.restore_tabs();
    assert_eq!(restored.text(), view.text());
    assert_eq!(restored.span_for(0..9).unwrap(), view.span_for(0..9).unwrap());
    assert_eq!(restored.span_for(5..6).unwrap(), Span { start: 5, end: 6 });
}

#[test]
fn join_keeps_whole_tabs_and_drops_partial_ones() {
    let expanded = SourceView::new("\t\tz").expand_tabs();
    assert_eq!(expanded.text(), "        z");
    let tail = expanded.join(&[2..9]).unwrap();
    assert_eq!(tail.text(), "      z");
    assert_eq!(tail.literal(0..7), "  \tz");
    assert_eq!(tail.span_for(0..7).unwrap(), Span { start: 0, end: 3 });
    assert_eq!(tail.restore_tabs().text(), "  \tz");
}

#[test]
fn lazy_marks_and_work_are_inherited() {
    let mut view = SourceView::new("ab\tc");
    assert!(!view.is_lazy(3));
    view.mark_lazy(3);
    assert!(view.is_lazy(3));
    let expanded = view.expand_tabs();
    assert!(expanded.is_lazy(3));
    assert_eq!(expanded.work_len(), 5 + 2 + 1);
    assert_eq!(view.work_len(), 4 + 1);
}

#[test]
fn the_literal_of_an_expanded_view_gives_the_tabs_back() {
    for text in ["a\tb\n\tx\u{e9}\tz", "\t\t", "no tabs", "", "ab\tcd\tefghi\t\n\t"] {
        let view = SourceView::new(text);
        let expanded = view.expand_tabs();
        assert!(!expanded.text().contains('\t'));
        assert_eq!(expanded.literal(0..expanded.text().len()), view.text());
    }
}

#[test]
fn setting_a_value_again_replaces_it_in_place() {
    let mut view = SourceView::new("x");
    view.set_context(ParentState("first"));
    view.set_context(OtherExtension(1));
    view.set_context(ParentState("second"));
    assert_eq!(view.context.len(), 2);
    assert_eq!(view.context::<ParentState>(), Some(&ParentState("second")));
    assert_eq!(view.context::<OtherExtension>(), Some(&OtherExtension(1)));
    assert!(view.context::<u8>().is_none());
}
