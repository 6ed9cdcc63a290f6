use markdown_core::block::{after_block, blank, last_nonblank, lines};
use markdown_core::ParseError;

#[test]
fn blank_text_holds_only_spaces_and_tabs() {
    assert!(blank(""));
    assert!(blank(" \t  "));
    assert!(!blank(" \n"));
    assert!(!blank("  x"));
    assert!(!blank("\u{a0}"));
}

#[test]
fn lines_keep_their_feeds_and_drop_a_blank_unterminated_tail() {
    assert_eq!(lines("a\nbc\n"), vec![0..2, 2..5]);
    assert_eq!(lines("a\nbc"), vec![0..2, 2..4]);
    assert_eq!(lines("a\n  \t"), vec![0..2]);
    assert_eq!(lines("a\n \n"), vec![0..2, 2..4]);
    assert_eq!(lines("\n\n"), vec![0..1, 1..2]);
    assert_eq!(lines(""), Vec::<std::ops::Range<usize>>::new());
    assert_eq!(lines("  "), Vec::<std::ops::Range<usize>>::new());
    assert_eq!(lines("é\nx"), vec![0..3, 3..4]);
}

#[test]
fn the_last_nonblank_line_ignores_trailing_blank_lines() {
    let text = "a\n \t\n\nb\n  \n";
    let ls = lines(text);
    assert_eq!(last_nonblank(text, &ls), 3);
    let blank_only = " \n\t\n";
    assert_eq!(last_nonblank(blank_only, &lines(blank_only)), 0);
    assert_eq!(last_nonblank("", &[]), 0);
}

#[test]
fn scanning_goes_on_after_a_match_and_skips_a_consumed_separator() {
    assert_eq!(after_block(2, 2, 5, false, false, 4, false), Err(ParseError::InternalError));
    assert_eq!(after_block(2, 6, 5, false, false, 4, false), Err(ParseError::InternalError));
    assert_eq!(after_block(0, 2, 5, false, true, 4, false), Ok((2, false)));
    assert_eq!(after_block(0, 2, 5, true, true, 4, false), Ok((3, true)));
    assert_eq!(after_block(0, 4, 5, true, true, 4, false), Ok((5, false)));
    assert_eq!(after_block(0, 2, 5, true, false, 4, true), Ok((2, true)));
    assert_eq!(after_block(0, 5, 5, true, true, 4, false), Ok((5, false)));
}
