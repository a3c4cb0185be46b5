use meon::span::Span;
use meon::standalone::context::{ParseContext, SymSpec};

fn md_context(src: &[u8]) -> ParseContext {
    // A Markdown-like opaque rule set: ``` fences, `code` spans, <autolinks>.
    ParseContext::build(
        src,
        b'\n',
        b'\\',
        b' ',
        b'\t',
        &[(b'`', 3)],
        &[(b'`', 1)],
        &[(b'<', b'>', 1)],
        0,
    )
}

// 01. Empty rule set / empty source produce an empty context
#[test]
fn test_01_empty() {
    let m = ParseContext::build(b"abc", b'\n', b'\\', b' ', b'\t', &[], &[], &[], 0);
    assert!(m.spans().is_empty());
    let m = md_context(b"");
    assert!(m.spans().is_empty());
}

// 02. A code span covers its full extent, delimiters included
#[test]
fn test_02_code_span() {
    let m = md_context(b"a `code` b");
    assert_eq!(m.spans(), &[Span::new(2, 8)]);
}

// 03. An autolink covers open through close byte
#[test]
fn test_03_autolink() {
    let m = md_context(b"x <http://a> y");
    assert_eq!(m.spans(), &[Span::new(2, 12)]);
}

// 04. A fenced block covers open line through close line
#[test]
fn test_04_fence() {
    let src = b"before\n```\n**not bold**\n```\nafter";
    let m = md_context(src);
    assert_eq!(m.spans(), &[Span::new(7, 27)]);
}

// 05. An unclosed fence covers to end of input
#[test]
fn context_test_05_unclosed_fence() {
    let src = b"a\n```\nrest never closes";
    let m = md_context(src);
    assert_eq!(m.spans(), &[Span::new(2, src.len() as u32)]);
}

// 06. Leftmost-wins: an autolink open inside a code span is not a region
//     of its own; scanning resumes after the code span
#[test]
fn test_06_leftmost_wins() {
    let m = md_context(b"`a <b` c> d <e>");
    // code span [0,6); the `<b` inside it is invisible; `c>` alone is no
    // autolink (no `<`), the next real autolink is `<e>` at 12..15.
    assert_eq!(m.spans(), &[Span::new(0, 6), Span::new(12, 15)]);
}

// 07. Escaped opening delimiter does not open an opaque region; the next
//     unescaped delimiter becomes the opener (full-parse semantics)
#[test]
fn test_07_escaped_open() {
    let m = md_context(b"a \\`not code` b `real`");
    // `\`` at 3 is literal; the backtick at 12 opens, closing at 16.
    assert_eq!(m.spans(), &[Span::new(12, 17)]);
}

// 08. Escaped closing delimiter is skipped by the close search
#[test]
fn test_08_escaped_close() {
    let m = md_context(b"`a\\`b` rest");
    assert_eq!(m.spans(), &[Span::new(0, 6)]);
}

// 09. Unclosed inline construct covers nothing
#[test]
fn test_09_unclosed_inline() {
    let m = md_context(b"a `never closes");
    assert!(m.spans().is_empty());
}

// ---- Paragraph-bounded behaviour --------------------------------- //

// 10. Opaque matching is paragraph-bounded: a pair may span a single line
//     break within one paragraph, exactly like the context-aware
//     standalone iterators.
#[test]
fn test_10_pair_spans_single_newline() {
    let m = md_context(b"a `x\ny` b");
    assert_eq!(m.spans(), &[Span::new(2, 7)]);
}

// 11. An empty line (two consecutive eol bytes) aborts a pending opener:
//     opaque constructs in different paragraphs never pair.
#[test]
fn test_11_empty_line_aborts_open() {
    let m = md_context(b"a `x\n\ny` b");
    assert!(m.spans().is_empty());
}

// 12. A fence-opening line aborts a pending opener — a block construct
//     ends the paragraph — but the fence itself still gets its own
//     region.
#[test]
fn test_12_fence_aborts_pending_open() {
    let m = md_context(b"a `x\n```\ncode\n```\n");
    assert_eq!(m.spans(), &[Span::new(5, 17)]);
}

// 13. A fence info line with a trailing fence byte does not open
#[test]
fn test_13_fence_info_line_reject() {
    let m = md_context(b"``` info ` tick\ncontent\n```\n");
    // The open line is rejected (` on the info line), so the *inline*
    // code-span rule sees the ``` run (count 3 != 1, no match); third
    // line's ``` opens an (unclosed) fence to EOF.
    assert_eq!(m.spans(), &[Span::new(24, 28)]);
}

// 14. Fence close requires at least the open count
#[test]
fn test_14_fence_close_count() {
    let src = b"````\nx\n```\n````\ny";
    let m = md_context(src);
    assert_eq!(m.spans(), &[Span::new(0, 15)]);
}

// 15. Cursor: monotone queries, covering_end jumps
#[test]
fn test_15_cursor() {
    let m = md_context(b"a `b` c `d` e");
    let mut cur = m.cursor();
    assert!(!cur.is_covered(0));
    assert_eq!(cur.covering_end(2), Some(5));
    assert_eq!(cur.covering_end(4), Some(5));
    assert!(!cur.is_covered(6));
    assert_eq!(cur.covering_end(9), Some(11));
    assert!(!cur.is_covered(12));
}

// 16. Cursor copies fork independently
#[test]
fn test_16_cursor_copy() {
    let m = md_context(b"a `b` c `d` e");
    let mut cur = m.cursor();
    assert!(!cur.is_covered(1));
    let mut fork = cur;
    assert_eq!(fork.covering_end(9), Some(11));
    // Parent still answers correctly for positions >= its own last query.
    assert_eq!(cur.covering_end(2), Some(5));
}

// 17. JSON-shaped rule set: strings only, no fences
#[test]
fn test_17_json_strings() {
    let src = br#"{"a": "x, {not open}", "b": 1}"#;
    let m = ParseContext::build(src, b'\n', b'\\', b' ', b'\t', &[], &[(b'"', 1)], &[], 0);
    // "a" -> [1,4), "x, {not open}" -> [6,21), "b" -> [23,26)
    assert_eq!(
        m.spans(),
        &[Span::new(1, 4), Span::new(6, 21), Span::new(23, 26)]
    );
}

// 18. A fence byte distinct from every trigger (`~~~` fence with backtick
//     code spans) exercises the pure-fence-byte needle path
#[test]
fn test_18_distinct_fence_byte() {
    let src = b"`c`\n~~~\n`hidden`\n~~~\n`d`";
    let m = ParseContext::build(
        src,
        b'\n',
        b'\\',
        b' ',
        b'\t',
        &[(b'~', 3)],
        &[(b'`', 1)],
        &[],
        0,
    );
    assert_eq!(
        m.spans(),
        &[Span::new(0, 3), Span::new(4, 20), Span::new(21, 24)]
    );
}
// ---- Wide needle sets, fence-byte edges, asymmetric branches -------- //

// 19. Every find_needle arm from 4 through 11+ needles finds a pair of
//     the last (rarest) trigger byte — the SWAR dispatch works end to end
#[test]
fn test_19_wide_needle_sets() {
    let alphabet = *b"qwzjvxkyfgd";
    for n in 4..=11usize {
        let sym: Vec<SymSpec> = alphabet[..n].iter().map(|&b| (b, 1)).collect();
        let last = alphabet[n - 1];
        let src = [last, b'h', b'i', last, b' ', b'.'];
        let m = ParseContext::build(&src, b'\n', b'\\', b' ', b'\t', &[], &sym, &[], 0);
        assert_eq!(m.spans(), &[Span::new(0, 4)], "needle count {n}");
    }
}

// 20. Needles beyond the fixed buffer are dropped: the overflowing rule
//     simply never matches, everything else still does
#[test]
fn test_20_needle_overflow_dropped() {
    let alphabet = *b"qwzjvxkyfgdm";
    let sym: Vec<SymSpec> = alphabet.iter().map(|&b| (b, 1)).collect();
    let m = ParseContext::build(b"mam qbq", b'\n', b'\\', b' ', b'\t', &[], &sym, &[], 0);
    assert_eq!(m.spans(), &[Span::new(4, 7)]);
}

// 21. Two distinct fence rules coexist; a mid-line or short-run fence
//     byte that opens nothing is ordinary content
#[test]
fn test_21_two_fence_rules() {
    let src = b"~~ not\n```\na\n```\n~~~\nb\n~~~\nx ``` y";
    let m = ParseContext::build(
        src,
        b'\n',
        b'\\',
        b' ',
        b'\t',
        &[(b'`', 3), (b'~', 3)],
        &[],
        &[],
        0,
    );
    assert_eq!(m.spans(), &[Span::new(7, 16), Span::new(17, 26)]);
}

// 22. Close-fence scan: a mid-line fence byte and a close-line with
//     trailing junk are both skipped before the true close
#[test]
fn test_22_fence_close_scan_edges() {
    let src = b"```\ncode ` tick\n``` x\n```\nafter";
    let m = md_context(src);
    assert_eq!(m.spans(), &[Span::new(0, 25)]);
}

// 23. Asymmetric: a wrong-length open run and an unclosed opener both
//     yield nothing; escaped close candidates are skipped
#[test]
fn test_23_asym_branches() {
    let m = md_context(b"<<double> x");
    assert!(m.spans().is_empty());
    let m = md_context(b"a <never closes");
    assert!(m.spans().is_empty());
    let m = md_context(b"<a\\>b> c");
    assert_eq!(m.spans(), &[Span::new(0, 6)]);
}

// 24. Asymmetric close search is paragraph-bounded: crosses one newline,
//     aborts on an empty line and on a fence-opening line
#[test]
fn test_24_asym_paragraph_bounds() {
    let m = md_context(b"<a\nb> c");
    assert_eq!(m.spans(), &[Span::new(0, 5)]);
    let m = md_context(b"<a\n\nb> c");
    assert!(m.spans().is_empty());
    let m = md_context(b"<a\n```\nx\n```\nb> c");
    assert_eq!(m.spans(), &[Span::new(3, 12)]);
}

// 25. Symmetric close search skips a wrong-count closing run
#[test]
fn test_25_sym_close_run_mismatch() {
    let m = md_context(b"`a``b` x");
    assert_eq!(m.spans(), &[Span::new(0, 6)]);
}
