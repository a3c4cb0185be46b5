use meon::span::Span;
use meon::LineUniformIter;

// Helper closures for testing
fn stab_matches(b: u8) -> bool {
    b == b'=' || b == b'-'
}

fn stab_make(b: u8) -> u8 {
    b
}

// 01. Matches a perfect uniform single line containing only the delimiter
#[test]
fn test_01_basic_uniform_line() {
    let src = b"====";
    let mut iter = LineUniformIter::new(src, 3, b'\n', b' ', stab_matches, stab_make);

    assert_eq!(iter.next(), Some((b'=', Span::new(0, 4))));
    assert_eq!(iter.next(), None);
}

// 02. Matches a line where delimiters are correctly interleaved with the allowed separator
#[test]
fn test_02_interleaved_separators() {
    let src = b"= = = =";
    let mut iter = LineUniformIter::new(src, 3, b'\n', b' ', stab_matches, stab_make);

    assert_eq!(iter.next(), Some((b'=', Span::new(0, 7))));
    assert_eq!(iter.next(), None);
}

// 03. Returns None when the line contains an invalid character that is neither delim nor sep
#[test]
fn test_03_invalid_character_disruption() {
    let src = b"==x==";
    let mut iter = LineUniformIter::new(src, 3, b'\n', b' ', stab_matches, stab_make);

    assert_eq!(iter.next(), None);
}

// 04. Skips an invalid line and successfully moves on to parse subsequent valid lines
#[test]
fn test_04_skip_invalid_line_to_valid() {
    let src = b"===\n==x==\n===";
    let mut iter = LineUniformIter::new(src, 3, b'\n', b' ', stab_matches, stab_make);

    assert_eq!(iter.next(), Some((b'=', Span::new(0, 3))));
    assert_eq!(iter.next(), Some((b'=', Span::new(10, 13))));
    assert_eq!(iter.next(), None);
}

// 05. Rejects a line if the total count of the delimiter is strictly less than the min threshold
#[test]
fn test_05_below_min_threshold() {
    let src = b"==";
    let mut iter = LineUniformIter::new(src, 3, b'\n', b' ', stab_matches, stab_make);

    assert_eq!(iter.next(), None);
}

// 06. Rejects a uniform line if the closure matches returns false for its delimiter
#[test]
fn test_06_delimiter_rejected_by_closure() {
    let src = b"####";
    let mut iter = LineUniformIter::new(src, 3, b'\n', b' ', stab_matches, stab_make);

    assert_eq!(iter.next(), None);
}

// 07. Gracefully handles completely empty input data by immediately returning None
#[test]
fn test_07_empty_input() {
    let src = b"";
    let mut iter = LineUniformIter::new(src, 3, b'\n', b' ', stab_matches, stab_make);

    assert_eq!(iter.next(), None);
}

// 08. Safely skips sequential empty lines without panicking or matching them
#[test]
fn test_08_consecutive_empty_lines() {
    let src = b"\n\n\n";
    let mut iter = LineUniformIter::new(src, 3, b'\n', b' ', stab_matches, stab_make);

    assert_eq!(iter.next(), None);
}

// 09. Correctly extracts different kinds of valid delimiters across multiple lines
#[test]
fn test_09_multiple_distinct_delimiters() {
    let src = b"====\n----\n====";
    let mut iter = LineUniformIter::new(src, 3, b'\n', b' ', stab_matches, stab_make);

    assert_eq!(iter.next(), Some((b'=', Span::new(0, 4))));
    assert_eq!(iter.next(), Some((b'-', Span::new(5, 9))));
    assert_eq!(iter.next(), Some((b'=', Span::new(10, 14))));
    assert_eq!(iter.next(), None);
}

// 10. Successfully matches a valid uniform line that terminates exactly at EOF without an EOL character
#[test]
fn test_10_missing_trailing_eol_at_eof() {
    let src = b"====";
    let mut iter = LineUniformIter::new(src, 3, b'\n', b' ', stab_matches, stab_make);

    assert_eq!(iter.next(), Some((b'=', Span::new(0, 4))));
    assert_eq!(iter.next(), None);
}

// 11. Skips over empty lines embedded between otherwise valid uniform lines
#[test]
fn test_11_empty_lines_interleaved() {
    let src = b"====\n\n----";
    let mut iter = LineUniformIter::new(src, 3, b'\n', b' ', stab_matches, stab_make);

    assert_eq!(iter.next(), Some((b'=', Span::new(0, 4))));
    assert_eq!(iter.next(), Some((b'-', Span::new(6, 10))));
    assert_eq!(iter.next(), None);
}

// 12. Rejects a line starting with a separator if that separator fails the matches predicate
#[test]
fn test_12_line_starting_with_separator() {
    let src = b" ====";
    let mut iter = LineUniformIter::new(src, 3, b'\n', b' ', stab_matches, stab_make);

    assert_eq!(iter.next(), None);
}

// 13. Successfully matches a line when the allowed separator characters are trailing at the end
#[test]
fn test_13_trailing_separators_on_valid_line() {
    let src = b"====    ";
    let mut iter = LineUniformIter::new(src, 3, b'\n', b' ', stab_matches, stab_make);

    assert_eq!(iter.next(), Some((b'=', Span::new(0, 8))));
    assert_eq!(iter.next(), None);
}

// 14. Matches a line that meets the minimum count threshold exactly on the edge
#[test]
fn test_14_exact_minimum_count_match() {
    let src = b"===";
    let mut iter = LineUniformIter::new(src, 3, b'\n', b' ', stab_matches, stab_make);

    assert_eq!(iter.next(), Some((b'=', Span::new(0, 3))));
    assert_eq!(iter.next(), None);
}

// 15. Verifies that the internal position tracker advances correctly when iterating through matches
#[test]
fn test_15_position_advancement_and_exhaustion() {
    let src = b"===\n---";
    let mut iter = LineUniformIter::new(src, 3, b'\n', b' ', stab_matches, stab_make);

    assert!(iter.next().is_some());
    assert!(iter.next().is_some());
    assert!(iter.next().is_none());
}
