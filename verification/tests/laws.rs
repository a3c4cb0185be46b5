use meon::search::{find_any_of, find_byte, find_byte2, find_byte3};
use meon::span::Span;
use meon::standalone::context::ParseContext;
use meon::swar::find_any;
use meon::{
    AsymmetricExactIter, BlockMarkerIter, BlockNumberedIter, ContIter, ContextAsymmetricExactIter,
    LineUniformIter,
};

fn marker3(b: u8) -> bool {
    b == b'*' || b == b'-' || b == b'+'
}

fn marker4(b: u8) -> bool {
    marker3(b) || b == 0x01
}

fn keep(b: u8) -> u8 {
    b
}

fn delim2(b: u8) -> bool {
    b == b'.' || b == b')'
}

fn delim5(b: u8) -> bool {
    delim2(b) || b == 0x01 || b == 0x02 || b == 0x03
}

fn pair(n: u32, k: u8) -> (u32, u8) {
    (n, k)
}

fn rule3(b: u8) -> bool {
    b == b'-' || b == b'=' || b == b'_'
}

fn rule4(b: u8) -> bool {
    rule3(b) || b == 0x01
}

const BLOCKS: &[u8] = b"* a\n  - b\nx * not\n+c\n\t+ d\n*\n- \n";

fn drain_marker<M: Fn(u8) -> bool>(mut it: BlockMarkerIter<'_, u8, M, fn(u8) -> u8>) -> Vec<(u8, Span)> {
    let mut v = Vec::new();
    while let Some(x) = it.next() {
        v.push(x);
    }
    v
}

// Streaming (three marker bytes) and line-by-line (four) block-marker scans
// find the same items.
#[test]
fn law_block_marker_rules_agree() {
    let a = drain_marker(BlockMarkerIter::new(BLOCKS, b'\n', b' ', b'\t', marker3, keep as fn(u8) -> u8));
    let b = drain_marker(BlockMarkerIter::new(BLOCKS, b'\n', b' ', b'\t', marker4, keep as fn(u8) -> u8));
    assert_eq!(a, b);
    assert_eq!(
        a,
        vec![
            (b'*', Span::new(2, 3)),
            (b'-', Span::new(8, 9)),
            (b'+', Span::new(24, 25)),
            (b'-', Span::new(30, 30)),
        ]
    );
}

const NUMBERED: &[u8] = b"1. one\n  22) two\nx 3. no\n4.no\n1234567890. long\n999999999. max\n5.\n";

fn drain_numbered<E: Fn(u8) -> bool>(
    mut it: BlockNumberedIter<'_, (u32, u8), E, fn(u32, u8) -> (u32, u8)>,
) -> Vec<((u32, u8), Span)> {
    let mut v = Vec::new();
    while let Some(x) = it.next() {
        v.push(x);
    }
    v
}

// Streaming (two delimiters) and line-by-line (five) numbered scans find
// the same items, including the nine-digit maximum.
#[test]
fn law_block_numbered_rules_agree() {
    let mk = pair as fn(u32, u8) -> (u32, u8);
    let a = drain_numbered(BlockNumberedIter::new(NUMBERED, b'\n', b' ', b'\t', delim2, mk));
    let b = drain_numbered(BlockNumberedIter::new(NUMBERED, b'\n', b' ', b'\t', delim5, mk));
    assert_eq!(a, b);
    assert_eq!(
        a,
        vec![
            ((1, b'.'), Span::new(3, 6)),
            ((22, b')'), Span::new(13, 16)),
            ((999999999, b'.'), Span::new(58, 61)),
        ]
    );
}

const RULES: &[u8] = b"---\nx---\n- - -\n==\n___ _\n-=-\n\n";

fn drain_uniform<M: Fn(u8) -> bool>(
    mut it: LineUniformIter<'_, u8, M, fn(u8) -> u8>,
) -> Vec<(u8, Span)> {
    let mut v = Vec::new();
    while let Some(x) = it.next() {
        v.push(x);
    }
    v
}

// Streaming (three delimiter bytes) and line-by-line (four) uniform-line
// scans find the same lines.
#[test]
fn law_line_uniform_rules_agree() {
    let a = drain_uniform(LineUniformIter::new(RULES, 3, b'\n', b' ', rule3, keep as fn(u8) -> u8));
    let b = drain_uniform(LineUniformIter::new(RULES, 3, b'\n', b' ', rule4, keep as fn(u8) -> u8));
    assert_eq!(a, b);
    assert_eq!(
        a,
        vec![(b'-', Span::new(0, 3)), (b'-', Span::new(9, 14)), (b'_', Span::new(18, 23))]
    );
}

// The opaque regions of a context are sorted, non-empty and do not overlap.
#[test]
fn law_context_regions_sorted() {
    let src = b"`a` <b> ``c`` `d\n\ne` <f\n```\nx\n```\n`g`";
    let m = ParseContext::build(
        src,
        b'\n',
        b'\\',
        b' ',
        b'\t',
        &[(b'`', 3)],
        &[(b'`', 1), (b'`', 2)],
        &[(b'<', b'>', 1)],
        0,
    );
    let s = m.spans();
    for w in s.windows(2) {
        assert!(w[0].end <= w[1].start);
    }
    for r in s {
        assert!(r.start < r.end && r.end as usize <= src.len());
    }
    assert_eq!(
        s,
        &[Span::new(0, 3), Span::new(4, 7), Span::new(24, 33), Span::new(34, 37)]
    );
}

// A cursor queried in increasing order answers as the whole context does;
// a forked cursor leaves its parent untouched.
#[test]
fn law_cursor_monotone() {
    let src = b"a `b` c `d` e `f`";
    let m = ParseContext::build(src, b'\n', b'\\', b' ', b'\t', &[], &[(b'`', 1)], &[], 0);
    let mut cur = m.cursor();
    let mut answers = Vec::new();
    for pos in 0..src.len() {
        answers.push(cur.covering_end(pos));
    }
    for (pos, got) in answers.iter().enumerate() {
        let want = m
            .spans()
            .iter()
            .find(|r| (r.start as usize) <= pos && pos < r.end as usize)
            .map(|r| r.end as usize);
        assert_eq!(*got, want);
    }
    let mut c2 = m.cursor();
    let mut fork = c2;
    assert_eq!(fork.covering_end(15), Some(17));
    assert_eq!(c2.covering_end(3), Some(5));
    assert!(!c2.is_covered(6));
}

// The default context is empty, and a clone keeps the regions.
#[test]
fn law_context_default_and_clone() {
    let d = ParseContext::default();
    assert!(d.spans().is_empty());
    let m = ParseContext::build(b"`x` `y`", b'\n', b'\\', b' ', b'\t', &[], &[(b'`', 1)], &[], 0);
    let c = m.clone();
    assert_eq!(c.spans(), m.spans());
}

// With an empty context the context-aware asymmetric scan finds what the
// context-free one does.
#[test]
fn law_context_empty_asym_same() {
    let src = b"a {b} \\{c} {d\ne} {{f} {g";
    let ctx = ParseContext::default();
    let mut aware = ContextAsymmetricExactIter::new(src, b'{', b'}', 1, b'\n', b'\\', &ctx);
    let mut free = AsymmetricExactIter::new(src, b'{', b'}', 1, b'\n', b'\\');
    let mut a = Vec::new();
    while let Some(x) = aware.next() {
        a.push(x);
    }
    let mut f = Vec::new();
    while let Some(x) = free.next() {
        f.push(x);
    }
    assert_eq!(a, f);
    assert_eq!(a, vec![Span::new(3, 4), Span::new(12, 15)]);
}

// A context-aware match never starts or ends inside an opaque region.
#[test]
fn law_context_asym_skips_regions() {
    let src = b"`{a}` {b `}` c}";
    let ctx = ParseContext::build(src, b'\n', b'\\', b' ', b'\t', &[], &[(b'`', 1)], &[], 0);
    let mut it = ContextAsymmetricExactIter::new(src, b'{', b'}', 1, b'\n', b'\\', &ctx);
    assert_eq!(it.next(), Some(Span::new(7, 14)));
    assert_eq!(it.next(), None);
}

// The SWAR search finds the first target for every width, in the eight-byte
// chunks and in the tail.
#[test]
fn law_find_any_every_width() {
    let hay = b"....................z...y...x";
    assert_eq!(find_any([b'x'], hay), Some(28));
    assert_eq!(find_any([b'x', b'y'], hay), Some(24));
    assert_eq!(find_any([b'x', b'y', b'z'], hay), Some(20));
    assert_eq!(find_any([b'x', b'y', b'z', b'q'], hay), Some(20));
    assert_eq!(find_any([b'q', b'r', b's', b't', b'x'], hay), Some(28));
    assert_eq!(find_any([b'q', b'r', b's', b't', b'u', b'v'], hay), None);
    assert_eq!(find_any([b'a', b'b', b'c', b'd', b'e', b'f', b'g', b'y'], hay), Some(24));
    assert_eq!(
        find_any([b'a', b'b', b'c', b'd', b'e', b'f', b'g', b'h', b'i', b'j', b'.'], hay),
        Some(0)
    );
    assert_eq!(find_any([b'1', b'2', b'3', b'4'], b""), None);
    assert_eq!(find_any([b'1', b'2', b'3', b'4'], b"abc4"), Some(3));
    let mut long = vec![b'.'; 64];
    long[37] = 0xff;
    assert_eq!(find_any([0x01, 0x80, 0xfe, 0xff], &long), Some(37));
}

// The search helpers report the first occurrence at or after the offset.
#[test]
fn law_search_helpers() {
    let s = b"abcabcxyz";
    assert_eq!(find_byte(s, 1, b'a'), Some(3));
    assert_eq!(find_byte(s, 4, b'a'), None);
    assert_eq!(find_byte2(s, 0, b'z', b'c'), Some(2));
    assert_eq!(find_byte3(s, 3, b'y', b'x', b'q'), Some(6));
    assert_eq!(find_any_of(&[b'z', b'b', 0], 2, s, 2), Some(4));
    assert_eq!(find_any_of(&[b'z', b'b', 0], 0, s, 0), None);
}

// A nesting cap of zero opens no frame; two same-line markers nest and the
// inner frame closes first.
#[test]
fn law_cont_cap_and_order() {
    let mut none = ContIter::new(b"> > a\n> b\n", b'>', b'\n', b' ', b'\t', 0);
    assert_eq!(none.next(), None);
    let mut it = ContIter::new(b"> > a\n> b\nc", b'>', b'\n', b' ', b'\t', 8);
    assert_eq!(it.next(), Some(Span::new(2, 6)));
    assert_eq!(it.next(), Some(Span::new(0, 10)));
    assert_eq!(it.next(), None);
}

fn only_star(b: u8) -> bool {
    b == b'*'
}

fn four_markers(b: u8) -> bool {
    b == b'*' || b == b'-' || b == b'+' || b == b'~'
}

// Two marker predicates that agree on the bytes of the source find the same
// items, one by its needle and one line by line.
#[test]
fn law_block_marker_matcher_independent() {
    let src = b"* item\n";
    let a = drain_marker(BlockMarkerIter::new(src, b'\n', b' ', b'\t', only_star, keep as fn(u8) -> u8));
    let b = drain_marker(BlockMarkerIter::new(src, b'\n', b' ', b'\t', four_markers, keep as fn(u8) -> u8));
    assert_eq!(a, b);
    assert_eq!(a, vec![(b'*', Span::new(2, 6))]);
}

fn drain_cont(mut it: ContIter<'_>) -> Vec<Span> {
    let mut v = Vec::new();
    while let Some(x) = it.next() {
        v.push(x);
    }
    v
}

// Continuation blocks come in close order, innermost first among frames
// closing together; any two are disjoint or the earlier lies inside the
// later.
#[test]
fn law_cont_close_order_and_nesting() {
    let src = b"> a\n> > b\n> > > c\n> d\nx\n> e\n";
    let got = drain_cont(ContIter::new(src, b'>', b'\n', b' ', b'\t', 8));
    assert_eq!(
        got,
        vec![Span::new(14, 18), Span::new(6, 18), Span::new(0, 22), Span::new(24, 28)]
    );
    for i in 0..got.len() {
        for j in i + 1..got.len() {
            let (a, b) = (got[i], got[j]);
            assert!(a.end < b.end || (a.end == b.end && b.start < a.start));
            assert!(a.end <= b.start || (b.start < a.start && a.end <= b.end));
        }
    }
}
