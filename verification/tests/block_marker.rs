use meon::span::Span;
use meon::BlockMarkerIter;

fn stub_make(kind: u8) -> u8 {
    kind
}

fn stub_matches(b: u8) -> bool {
    b == b'*' || b == b'-' || b == b'+'
}

// 01. Parses a standard markdown list item with a trailing newline
#[test]
fn test_01_standard_list_item() {
    let src = b"* item\n";
    let mut iter = BlockMarkerIter::new(src, b'\n', b' ', b'\t', stub_matches, stub_make);

    assert_eq!(iter.next(), Some((b'*', Span::new(2, 6))));
    assert_eq!(iter.next(), None);
}

// 02. Skips leading space indentation before identifying the block marker
#[test]
fn block_marker_test_02_leading_spaces_skipped() {
    let src = b"  * item";
    let mut iter = BlockMarkerIter::new(src, b'\n', b' ', b'\t', stub_matches, stub_make);

    assert_eq!(iter.next(), Some((b'*', Span::new(4, 8))));
    assert_eq!(iter.next(), None);
}

// 03. Correctly matches an alternative valid marker character from the closure
#[test]
fn test_03_alternative_marker_matched() {
    let src = b"- item";
    let mut iter = BlockMarkerIter::new(src, b'\n', b' ', b'\t', stub_matches, stub_make);

    assert_eq!(iter.next(), Some((b'-', Span::new(2, 6))));
    assert_eq!(iter.next(), None);
}

// 04. Uses a tab character as a valid separator after the block marker
#[test]
fn test_04_tab_as_separator() {
    let src = b"*\titem";
    let mut iter = BlockMarkerIter::new(src, b'\n', b' ', b'\t', stub_matches, stub_make);

    assert_eq!(iter.next(), Some((b'*', Span::new(2, 6))));
    assert_eq!(iter.next(), None);
}

// 05. Skips leading tab characters used for line indentation
#[test]
fn test_05_tabs_as_indentation_skipped() {
    let src = b"\t\t* item";
    let mut iter = BlockMarkerIter::new(src, b'\n', b' ', b'\t', stub_matches, stub_make);

    assert_eq!(iter.next(), Some((b'*', Span::new(4, 8))));
    assert_eq!(iter.next(), None);
}

// 06. Rejects a marker sequence that completely lacks a trailing whitespace separator
#[test]
fn test_06_missing_separator_after_marker_rejected() {
    let src = b"*item";
    let mut iter = BlockMarkerIter::new(src, b'\n', b' ', b'\t', stub_matches, stub_make);

    assert_eq!(iter.next(), None);
}

// 07. Extracts multiple distinct marker items sequentially across line boundaries
#[test]
fn block_marker_test_07_multiple_items_across_lines() {
    let src = b"* a\n- b";
    let mut iter = BlockMarkerIter::new(src, b'\n', b' ', b'\t', stub_matches, stub_make);

    assert_eq!(iter.next(), Some((b'*', Span::new(2, 3))));
    assert_eq!(iter.next(), Some((b'-', Span::new(6, 7))));
    assert_eq!(iter.next(), None);
}

// 08. Captures a valid block item that contains an empty content payload segment
#[test]
fn test_08_empty_content_after_separator() {
    let src = b"* ";
    let mut iter = BlockMarkerIter::new(src, b'\n', b' ', b'\t', stub_matches, stub_make);

    assert_eq!(iter.next(), Some((b'*', Span::new(2, 2))));
    assert_eq!(iter.next(), None);
}

// 09. Skips lines containing raw text that do not begin with a valid block marker
#[test]
fn test_09_skips_non_marker_lines() {
    let src = b"plain text\n* item";
    let mut iter = BlockMarkerIter::new(src, b'\n', b' ', b'\t', stub_matches, stub_make);

    assert_eq!(iter.next(), Some((b'*', Span::new(13, 17))));
    assert_eq!(iter.next(), None);
}

// 10. Rejects an inline marker character preceded by unallowed alphanumeric text
#[test]
fn test_10_marker_preceded_by_text_rejected() {
    let src = b"abc * item";
    let mut iter = BlockMarkerIter::new(src, b'\n', b' ', b'\t', stub_matches, stub_make);

    assert_eq!(iter.next(), None);
}

// 11. Returns None immediately when supplied with a completely empty source slice
#[test]
fn block_marker_test_11_empty_source_slice() {
    let src = b"";
    let mut iter = BlockMarkerIter::new(src, b'\n', b' ', b'\t', stub_matches, stub_make);

    assert_eq!(iter.next(), None);
}

// 12. Includes any secondary whitespace bytes directly inside the generated span offset
#[test]
fn test_12_extra_spaces_included_in_span() {
    let src = b"*   item";
    let mut iter = BlockMarkerIter::new(src, b'\n', b' ', b'\t', stub_matches, stub_make);

    assert_eq!(iter.next(), Some((b'*', Span::new(2, 8))));
    assert_eq!(iter.next(), None);
}

// 13. Rejects a line when the source stream terminates precisely at the marker byte
#[test]
fn test_13_eof_immediately_at_marker_rejected() {
    let src = b"*";
    let mut iter = BlockMarkerIter::new(src, b'\n', b' ', b'\t', stub_matches, stub_make);

    assert_eq!(iter.next(), None);
}

// 14. Rejects consecutive consecutive marker characters without an intermediate space
#[test]
fn test_14_consecutive_markers_without_space_rejected() {
    let src = b"** item";
    let mut iter = BlockMarkerIter::new(src, b'\n', b' ', b'\t', stub_matches, stub_make);

    assert_eq!(iter.next(), None);
}

// 15. Skips a blank line composed entirely of whitespace characters safely
#[test]
fn test_15_whitespace_only_line_skipped() {
    let src = b"   \n+ item";
    let mut iter = BlockMarkerIter::new(src, b'\n', b' ', b'\t', stub_matches, stub_make);

    assert_eq!(iter.next(), Some((b'+', Span::new(6, 10))));
    assert_eq!(iter.next(), None);
}
// ---- Per-line fallback path (matcher accepting more than 3 bytes) --- //

fn wide_matches(b: u8) -> bool {
    matches!(b, b'*' | b'-' | b'+' | b'~')
}

// 16. A matcher accepting four bytes forces the line-by-line fallback,
//     which must produce the same result as the streaming path
#[test]
fn test_16_fallback_standard_item() {
    let src = b"* item\n";
    let mut iter = BlockMarkerIter::new(src, b'\n', b' ', b'\t', wide_matches, stub_make);
    assert_eq!(iter.next(), Some((b'*', Span::new(2, 6))));
    assert_eq!(iter.next(), None);
}

// 17. Fallback: indentation, a non-matching line, and a marker without
//     its separator are all handled as in the streaming path
#[test]
fn test_17_fallback_indent_and_skips() {
    let src = b"plain\n  ~ deep\n-nosep\n+ ok";
    let mut iter = BlockMarkerIter::new(src, b'\n', b' ', b'\t', wide_matches, stub_make);
    assert_eq!(iter.next(), Some((b'~', Span::new(10, 14))));
    assert_eq!(iter.next(), Some((b'+', Span::new(24, 26))));
    assert_eq!(iter.next(), None);
}

// 18. Fallback: empty input and empty lines terminate cleanly
#[test]
fn test_18_fallback_empty() {
    let mut iter = BlockMarkerIter::new(b"", b'\n', b' ', b'\t', wide_matches, stub_make);
    assert_eq!(iter.next(), None);
    let mut iter = BlockMarkerIter::new(b"\n\n", b'\n', b' ', b'\t', wide_matches, stub_make);
    assert_eq!(iter.next(), None);
}
