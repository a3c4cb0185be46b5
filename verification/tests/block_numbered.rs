use meon::span::Span;
use meon::BlockNumberedIter;

fn stub_make(num: u32, kind: u8) -> (u32, u8) {
    (num, kind)
}

fn stub_end_matches(b: u8) -> bool {
    b == b'.' || b == b')'
}

// 01. Parses a standard ordered list item with a dot delimiter and trailing text
#[test]
fn test_01_standard_ordered_item() {
    let src = b"1. item\n";
    let mut iter = BlockNumberedIter::new(src, b'\n', b' ', b'\t', stub_end_matches, stub_make);

    assert_eq!(iter.next(), Some(((1, b'.'), Span::new(3, 7))));
    assert_eq!(iter.next(), None);
}

// 02. Successfully skips leading spaces before parsing the item number
#[test]
fn block_numbered_test_02_leading_spaces_skipped() {
    let src = b"  2. item";
    let mut iter = BlockNumberedIter::new(src, b'\n', b' ', b'\t', stub_end_matches, stub_make);

    assert_eq!(iter.next(), Some(((2, b'.'), Span::new(5, 9))));
    assert_eq!(iter.next(), None);
}

// 03. Validates alternative delimiter suffix matched via the predicate closure
#[test]
fn test_03_alternative_delimiter_suffix() {
    let src = b"9) test";
    let mut iter = BlockNumberedIter::new(src, b'\n', b' ', b'\t', stub_end_matches, stub_make);

    assert_eq!(iter.next(), Some(((9, b')'), Span::new(3, 7))));
    assert_eq!(iter.next(), None);
}

// 04. Parses a multi-digit item number that stays safely within the 9-digit ceiling
#[test]
fn test_04_multi_digit_number() {
    let src = b"12345. text";
    let mut iter = BlockNumberedIter::new(src, b'\n', b' ', b'\t', stub_end_matches, stub_make);

    assert_eq!(iter.next(), Some(((12345, b'.'), Span::new(7, 11))));
    assert_eq!(iter.next(), None);
}

// 05. Rejects numbers containing 10 or more digits due to the digit count restriction
#[test]
fn test_05_digit_count_overflow_boundary_rejected() {
    let src = b"1234567890. text";
    let mut iter = BlockNumberedIter::new(src, b'\n', b' ', b'\t', stub_end_matches, stub_make);

    assert_eq!(iter.next(), None);
}

// 06. Rejects a line if there is no valid whitespace following the delimiter suffix
#[test]
fn test_06_missing_whitespace_after_delimiter_rejected() {
    let src = b"1.item";
    let mut iter = BlockNumberedIter::new(src, b'\n', b' ', b'\t', stub_end_matches, stub_make);

    assert_eq!(iter.next(), None);
}

// 07. Processes and extracts multiple sequential numbered items across different lines
#[test]
fn block_numbered_test_07_multiple_items_across_lines() {
    let src = b"1. a\n2. b";
    let mut iter = BlockNumberedIter::new(src, b'\n', b' ', b'\t', stub_end_matches, stub_make);

    assert_eq!(iter.next(), Some(((1, b'.'), Span::new(3, 4))));
    assert_eq!(iter.next(), Some(((2, b'.'), Span::new(8, 9))));
    assert_eq!(iter.next(), None);
}

// 08. Accepts an item with an empty content section containing only the trailing whitespace
#[test]
fn test_08_empty_content_after_delimiter() {
    let src = b"1. ";
    let mut iter = BlockNumberedIter::new(src, b'\n', b' ', b'\t', stub_end_matches, stub_make);

    assert_eq!(iter.next(), Some(((1, b'.'), Span::new(3, 3))));
    assert_eq!(iter.next(), None);
}

// 09. Skips lines that completely lack an initial digit marker sequence
#[test]
fn test_09_skips_non_numbered_lines() {
    let src = b"hello\n1. item";
    let mut iter = BlockNumberedIter::new(src, b'\n', b' ', b'\t', stub_end_matches, stub_make);

    assert_eq!(iter.next(), Some(((1, b'.'), Span::new(9, 13))));
    assert_eq!(iter.next(), None);
}

// 10. Rejects lines where digits appear but are preceded by unallowed text characters
#[test]
fn test_10_digits_after_text_rejected() {
    let src = b"abc 1. item";
    let mut iter = BlockNumberedIter::new(src, b'\n', b' ', b'\t', stub_end_matches, stub_make);

    assert_eq!(iter.next(), None);
}

// 11. Returns None immediately when initialized with a completely empty input slice
#[test]
fn block_numbered_test_11_empty_source_slice() {
    let src = b"";
    let mut iter = BlockNumberedIter::new(src, b'\n', b' ', b'\t', stub_end_matches, stub_make);

    assert_eq!(iter.next(), None);
}

// 12. Confirms that zero is processed correctly as a valid item index number
#[test]
fn test_12_zero_as_valid_number() {
    let src = b"0. item";
    let mut iter = BlockNumberedIter::new(src, b'\n', b' ', b'\t', stub_end_matches, stub_make);

    assert_eq!(iter.next(), Some(((0, b'.'), Span::new(3, 7))));
    assert_eq!(iter.next(), None);
}

// 13. Includes extra spaces following the first separator character inside the returned span
#[test]
fn test_13_multiple_spaces_after_delimiter() {
    let src = b"1.  item";
    let mut iter = BlockNumberedIter::new(src, b'\n', b' ', b'\t', stub_end_matches, stub_make);

    assert_eq!(iter.next(), Some(((1, b'.'), Span::new(3, 8))));
    assert_eq!(iter.next(), None);
}

// 14. Supports tab characters for both initial line indentation and item separation
#[test]
fn test_14_tabs_as_whitespace_and_separator() {
    let src = b"\t1.\titem";
    let mut iter = BlockNumberedIter::new(src, b'\n', b' ', b'\t', stub_end_matches, stub_make);

    assert_eq!(iter.next(), Some(((1, b'.'), Span::new(4, 8))));
    assert_eq!(iter.next(), None);
}

// 15. Rejects a line when the line end cuts off exactly at the delimiter suffix
#[test]
fn test_15_eof_immediately_after_delimiter_rejected() {
    let src = b"1.";
    let mut iter = BlockNumberedIter::new(src, b'\n', b' ', b'\t', stub_end_matches, stub_make);

    assert_eq!(iter.next(), None);
}
