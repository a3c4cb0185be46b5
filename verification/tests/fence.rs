use meon::span::Span;
use meon::FenceIter;

// 01. Parses a standard block surrounded by symmetric three-byte fence lines
#[test]
fn test_01_standard_fence_block() {
    let src = b"```\ncontent\n```";
    let mut iter = FenceIter::new(src, b'`', 3, b'\n', b' ', b'\t');

    assert_eq!(iter.next(), Some(Span::new(0, 15)));
    assert_eq!(iter.next(), None);
}

// 02. Successfully matches an opening fence line that contains an info string
#[test]
fn test_02_opening_fence_with_info_string() {
    let src = b"```rust\nlet x = 1;\n```";
    let mut iter = FenceIter::new(src, b'`', 3, b'\n', b' ', b'\t');

    assert_eq!(iter.next(), Some(Span::new(0, 22)));
    assert_eq!(iter.next(), None);
}

// 03. Accepts a closing fence line that contains allowed trailing spaces and tabs
#[test]
fn test_03_closing_fence_with_allowed_whitespace() {
    let src = b"```\ntext\n``` \t ";
    let mut iter = FenceIter::new(src, b'`', 3, b'\n', b' ', b'\t');

    assert_eq!(iter.next(), Some(Span::new(0, 15)));
    assert_eq!(iter.next(), None);
}

// 04. Matches a closing fence that has more consecutive bytes than the opening fence
#[test]
fn test_04_closing_fence_longer_than_opening() {
    let src = b"```\ncontent\n````";
    let mut iter = FenceIter::new(src, b'`', 3, b'\n', b' ', b'\t');

    assert_eq!(iter.next(), Some(Span::new(0, 16)));
    assert_eq!(iter.next(), None);
}

// 05. Rejects a closing fence if it has fewer consecutive bytes than the opening fence
#[test]
fn test_05_closing_fence_shorter_than_opening() {
    let src = b"````\ncontent\n```";
    let mut iter = FenceIter::new(src, b'`', 3, b'\n', b' ', b'\t');

    assert_eq!(iter.next(), Some(Span::new(0, 16)));
    assert_eq!(iter.next(), None);
}

// 06. Rejects a closing fence if it contains unallowed trailing text characters
#[test]
fn test_06_closing_fence_with_trailing_text() {
    let src = b"```\ncontent\n``` error";
    let mut iter = FenceIter::new(src, b'`', 3, b'\n', b' ', b'\t');

    assert_eq!(iter.next(), Some(Span::new(0, 21)));
    assert_eq!(iter.next(), None);
}

// 07. Ignores a potential opening fence line if its length is below the min threshold
#[test]
fn test_07_opening_fence_below_minimum_length() {
    let src = b"``\ncontent\n``";
    let mut iter = FenceIter::new(src, b'`', 3, b'\n', b' ', b'\t');

    assert_eq!(iter.next(), None);
}

// 08. Consumes everything until EOF when an opening fence lacks a valid closing fence
#[test]
fn test_08_unclosed_fence_consumes_to_eof() {
    let src = b"```\ncontent without close";
    let mut iter = FenceIter::new(src, b'`', 3, b'\n', b' ', b'\t');

    assert_eq!(iter.next(), Some(Span::new(0, 25)));
    assert_eq!(iter.next(), None);
}

// 09. Sequentially extracts multiple distinct closed fence blocks from the same source
#[test]
fn test_09_multiple_independent_fence_blocks() {
    let src = b"```\nfirst\n```\n```\nsecond\n```";
    let mut iter = FenceIter::new(src, b'`', 3, b'\n', b' ', b'\t');

    assert_eq!(iter.next(), Some(Span::new(0, 14)));
    assert_eq!(iter.next(), Some(Span::new(14, 28)));
    assert_eq!(iter.next(), None);
}

// 10. Immediately returns None when the input byte slice is completely empty
#[test]
fn test_10_empty_source_slice() {
    let src = b"";
    let mut iter = FenceIter::new(src, b'`', 3, b'\n', b' ', b'\t');

    assert_eq!(iter.next(), None);
}

// 11. Skips regular text lines and empty lines before finding a valid opening fence
#[test]
fn test_11_skips_leading_non_fence_lines() {
    let src = b"regular text\n\n```\ncontent\n```";
    let mut iter = FenceIter::new(src, b'`', 3, b'\n', b' ', b'\t');

    assert_eq!(iter.next(), Some(Span::new(14, 29)));
    assert_eq!(iter.next(), None);
}

// 12. Rejects an opening fence line if it is indented or starts with a space character
#[test]
fn test_12_indented_opening_fence_rejected() {
    let src = b" ```\ncontent\n```";
    let mut iter = FenceIter::new(src, b'`', 3, b'\n', b' ', b'\t');

    assert_eq!(iter.next(), Some(Span::new(13, 16)));
    assert_eq!(iter.next(), None);
}

// 13. Rejects an opening fence line if the specified marker byte appears again inside the info string
#[test]
fn test_13_opening_fence_with_marker_in_info_string() {
    let src = b"```rust`info\ncontent\n```";
    let mut iter = FenceIter::new(src, b'`', 3, b'\n', b' ', b'\t');

    assert_eq!(iter.next(), Some(Span::new(21, 24)));
    assert_eq!(iter.next(), None);
}

// 14. Matches a fence block that satisfies the minimum length threshold exactly on the edge
#[test]
fn test_14_exact_minimum_length_fence() {
    let src = b"~~~\ncontent\n~~~";
    let mut iter = FenceIter::new(src, b'~', 3, b'\n', b' ', b'\t');

    assert_eq!(iter.next(), Some(Span::new(0, 15)));
    assert_eq!(iter.next(), None);
}

// 15. Verifies fence extraction behavior when there is no trailing newline character at EOF
#[test]
fn test_15_no_trailing_newline_at_eof() {
    let src = b"```\ncontent\n```";
    let mut iter = FenceIter::new(src, b'`', 3, b'\n', b' ', b'\t');

    assert_eq!(iter.next(), Some(Span::new(0, 15)));
    assert_eq!(iter.next(), None);
}
