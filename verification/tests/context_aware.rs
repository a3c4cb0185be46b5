use meon::span::Span;
use meon::standalone::context::ParseContext;
use meon::{ContextAsymmetricExactIter, ContextSymmetricExactIter, SymmetricExactIter};

fn drain_sym(mut it: ContextSymmetricExactIter<'_>) -> Vec<Span> {
    let mut v = Vec::new();
    while let Some(s) = it.next() {
        v.push(s);
    }
    v
}

fn drain_asym(mut it: ContextAsymmetricExactIter<'_>) -> Vec<Span> {
    let mut v = Vec::new();
    while let Some(s) = it.next() {
        v.push(s);
    }
    v
}

fn drain_free(mut it: SymmetricExactIter<'_>) -> Vec<Span> {
    let mut v = Vec::new();
    while let Some(s) = it.next() {
        v.push(s);
    }
    v
}

fn md_context(src: &[u8]) -> ParseContext {
    ParseContext::build(
        src,
        b'\n',
        b'\\',
        b' ',
        b'\t',
        &[(b'`', 3)],
        &[(b'`', 1)],
        &[(b'<', b'>', 1)],
        0,
    )
}

// 01. Empty context: identical behaviour to the context-free iterator
#[test]
fn context_test_01_empty_context_matches_context_free() {
    let src = b"a **b** c **d**";
    let ctx = ParseContext::default();
    let aware: Vec<_> =
        drain_sym(ContextSymmetricExactIter::new(src, b'*', 2, b'\n', b'\\', &ctx));
    let free: Vec<_> = drain_free(SymmetricExactIter::new(src, b'*', 2, b'\n', b'\\'));
    assert_eq!(aware, free);
}

// 02. A bold pair whose open sits inside a code span is not matched
#[test]
fn context_test_02_open_inside_code_span_skipped() {
    let src = b"`**` not bold, **real**";
    let ctx = md_context(src);
    let spans: Vec<_> =
        drain_sym(ContextSymmetricExactIter::new(src, b'*', 2, b'\n', b'\\', &ctx));
    assert_eq!(spans, vec![Span::new(17, 21)]);
}

// 03. A close candidate inside an opaque region is skipped and the true
//     close (after the region) is found
#[test]
fn context_test_03_close_inside_opaque_region_skipped() {
    let src = b"**a `**` b**";
    let ctx = md_context(src);
    let spans: Vec<_> =
        drain_sym(ContextSymmetricExactIter::new(src, b'*', 2, b'\n', b'\\', &ctx));
    // The `**` inside backticks is covered; the pair closes at the end,
    // containing the code span — exactly the full-parse shape.
    assert_eq!(spans, vec![Span::new(2, 10)]);
}

// 04. Everything inside a fenced block is suppressed
#[test]
fn context_test_04_fence_suppression() {
    let src = b"**out**\n```\n**in**\n```\n**out2**";
    let ctx = md_context(src);
    let spans: Vec<_> =
        drain_sym(ContextSymmetricExactIter::new(src, b'*', 2, b'\n', b'\\', &ctx));
    assert_eq!(spans, vec![Span::new(2, 5), Span::new(25, 29)]);
}

// 05. Unclosed fence suppresses to end of input
#[test]
fn context_aware_test_05_unclosed_fence() {
    let src = b"**a**\n```\n**never**";
    let ctx = md_context(src);
    let spans: Vec<_> =
        drain_sym(ContextSymmetricExactIter::new(src, b'*', 2, b'\n', b'\\', &ctx));
    assert_eq!(spans, vec![Span::new(2, 3)]);
}

// 06. Context-aware asymmetric: open inside an opaque region skipped,
//     real one found
#[test]
fn context_test_06_asymmetric_open_covered() {
    let src = b"`<x>` and {y}";
    let ctx = md_context(src);
    let spans: Vec<_> =
        drain_asym(ContextAsymmetricExactIter::new(src, b'{', b'}', 1, b'\n', b'\\', &ctx));
    assert_eq!(spans, vec![Span::new(11, 12)]);
    // And the covered autolink itself is not found by a context-aware
    // `<`/`>` scan:
    let auto: Vec<_> =
        drain_asym(ContextAsymmetricExactIter::new(src, b'<', b'>', 1, b'\n', b'\\', &ctx));
    assert!(auto.is_empty());
}

// 07. Context-aware asymmetric: close candidate inside an opaque region
//     skipped
#[test]
fn context_test_07_asymmetric_close_covered() {
    let src = b"{a `}` b} c";
    let ctx = md_context(src);
    let spans: Vec<_> =
        drain_asym(ContextAsymmetricExactIter::new(src, b'{', b'}', 1, b'\n', b'\\', &ctx));
    assert_eq!(spans, vec![Span::new(1, 8)]);
}

// 08. A jump across several lines (fence) re-syncs the line loop
#[test]
fn context_test_08_multiline_jump_resync() {
    let src = b"x\n```\na\nb\nc\n```\n**z**";
    let ctx = md_context(src);
    let spans: Vec<_> =
        drain_sym(ContextSymmetricExactIter::new(src, b'*', 2, b'\n', b'\\', &ctx));
    assert_eq!(spans, vec![Span::new(18, 19)]);
}
