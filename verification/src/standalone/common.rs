//! Shared line and escape primitives for the standalone scanners.
//!
//! - [`find_line_end`] locates the end of the current line.
//! - [`advance_line`] moves to the start (and end) of the next line.
//! - [`count_escape`] counts the escape bytes immediately before a position:
//!   an odd count means a delimiter there is escaped.
use vstd::prelude::*;
pub use crate::span::Span;
use crate::search::{find2, line_end, find_byte, lemma_find1, lemma_find2};

verus! {

/// The number of consecutive `esc` bytes immediately before `pos`.
pub open spec fn esc_count(s: Seq<u8>, pos: int, esc: u8) -> nat
    decreases pos,
{
    if 0 < pos <= s.len() && s[pos - 1] == esc {
        1 + esc_count(s, pos - 1, esc)
    } else {
        0
    }
}

/// A delimiter at `pos` is escaped: an odd number of `esc` bytes precede it.
pub open spec fn escaped(s: Seq<u8>, pos: int, esc: u8) -> bool {
    esc_count(s, pos, esc) % 2 == 1
}

/// `esc_count` never exceeds the position.
pub proof fn lemma_esc_count_le(s: Seq<u8>, pos: int, esc: u8)
    ensures
        esc_count(s, pos, esc) <= if pos < 0 { 0 } else { pos },
    decreases pos,
{
    if 0 < pos <= s.len() && s[pos - 1] == esc {
        lemma_esc_count_le(s, pos - 1, esc);
    }
}

/// The exclusive end of the line containing `from`: the offset of the next
/// `eol` byte at or after `from`, or `src.len()` when there is none.
pub fn find_line_end(src: &[u8], from: usize, eol: u8) -> (r: usize)
    requires
        from <= src@.len(),
    ensures
        r == line_end(src@, from as int, eol),
        from <= r <= src@.len(),
        r < src@.len() ==> src@[r as int] == eol,
        forall|j: int| from <= j < r ==> src@[j] != eol,
{
    proof {
        lemma_find1(src@, from as int, eol);
    }
    match find_byte(src, from, eol) {
        Some(i) => i,
        None => src.len(),
    }
}

/// The next line after the line ending at `line_end`: its start
/// (`line_end + 1`) and end, or `None` when no byte follows `line_end + 1`
/// would start it (`line_end + 1 >= src.len()`).
pub open spec fn next_line(s: Seq<u8>, le: int, eol: u8) -> Option<(int, int)> {
    if le + 1 >= s.len() {
        None
    } else {
        Some((le + 1, line_end(s, le + 1, eol)))
    }
}

/// Advance past `line_end` and return `(next_line_start, next_line_end)`.
///
/// Returns `None` when `line_end + 1` is at or past the end of `src`, i.e.
/// when no next line exists.
pub fn advance_line(src: &[u8], line_end: usize, eol: u8) -> (r: Option<(usize, usize)>)
    ensures
        r == (match next_line(src@, line_end as int, eol) {
            Some((a, b)) => Some((a as usize, b as usize)),
            None => None::<(usize, usize)>,
        }),
{
    let len = src.len();
    if line_end >= len {
        return None;
    }
    let next = line_end + 1;
    if next >= len {
        return None;
    }
    Some((next, find_line_end(src, next, eol)))
}

/// Count the consecutive `escape` bytes immediately preceding `pos`.
///
/// An odd count means a delimiter at `pos` is escaped; an even count
/// (including zero) means it is active.
pub fn count_escape(src: &[u8], pos: usize, escape: u8) -> (n: u32)
    requires
        pos <= src@.len(),
        pos <= u32::MAX,
    ensures
        n == esc_count(src@, pos as int, escape),
{
    let mut n = 0u32;
    let mut k = pos;
    while k > 0 && src[k - 1] == escape
        invariant
            k <= pos <= src@.len(),
            pos <= u32::MAX,
            n + esc_count(src@, k as int, escape) == esc_count(src@, pos as int, escape),
            n + k == pos,
        decreases k,
    {
        n += 1;
        k -= 1;
    }
    n
}

/// The end of the run of `b` bytes that starts at `p`: the first offset at
/// or after `p` whose byte differs from `b`, or `s.len()`.
pub open spec fn run_end(s: Seq<u8>, p: int, b: u8) -> int
    decreases s.len() - p,
{
    if 0 <= p < s.len() && s[p] == b {
        run_end(s, p + 1, b)
    } else {
        p
    }
}

/// `run_end` is the end of a maximal run.
pub proof fn lemma_run_end(s: Seq<u8>, p: int, b: u8)
    requires
        0 <= p <= s.len(),
    ensures
        p <= run_end(s, p, b) <= s.len(),
        forall|i: int| p <= i < run_end(s, p, b) ==> s[i] == b,
        run_end(s, p, b) < s.len() ==> s[run_end(s, p, b)] != b,
        p < s.len() && s[p] == b ==> p < run_end(s, p, b),
    decreases s.len() - p,
{
    if p < s.len() && s[p] == b {
        lemma_run_end(s, p + 1, b);
    }
}

/// A run read forward from `p` ends where `run_end` says, and its length
/// (bounded by the source length) fits the `u32` counter.
pub fn scan_run(src: &[u8], p: usize, b: u8) -> (r: (usize, u32))
    requires
        p <= src@.len() <= u32::MAX,
    ensures
        r.0 == run_end(src@, p as int, b),
        r.1 == r.0 - p,
{
    proof {
        lemma_run_end(src@, p as int, b);
    }
    let len = src.len();
    let mut c = 0u32;
    let mut end = p;
    while end < len && src[end] == b
        invariant
            p <= end <= len,
            len == src@.len() <= u32::MAX,
            c == end - p,
            run_end(src@, end as int, b) == run_end(src@, p as int, b),
        decreases len - end,
    {
        c += 1;
        end += 1;
    }
    (end, c)
}

/// Some byte in `[a, b)` equals `x`.
pub open spec fn has_byte_in(s: Seq<u8>, a: int, b: int, x: u8) -> bool {
    exists|i: int| a <= i < b && #[trigger] s[i] == x
}

/// Every byte in `[a, b)` is `sep` or `tab`.
pub open spec fn blank_in(s: Seq<u8>, a: int, b: int, sep: u8, tab: u8) -> bool {
    forall|i: int| a <= i < b ==> #[trigger] s[i] == sep || s[i] == tab
}

/// Does `src[a..b]` contain `x`?
pub fn contains_byte(src: &[u8], a: usize, b: usize, x: u8) -> (r: bool)
    requires
        a <= b <= src@.len(),
    ensures
        r == has_byte_in(src@, a as int, b as int, x),
{
    let mut i = a;
    while i < b
        invariant
            a <= i <= b <= src@.len(),
            forall|k: int| a <= k < i ==> src@[k] != x,
        decreases b - i,
    {
        if src[i] == x {
            return true;
        }
        i += 1;
    }
    false
}

/// Is every byte of `src[a..b]` `sep` or `tab`?
pub fn all_sep_tab(src: &[u8], a: usize, b: usize, sep: u8, tab: u8) -> (r: bool)
    requires
        a <= b <= src@.len(),
    ensures
        r == blank_in(src@, a as int, b as int, sep, tab),
{
    let mut i = a;
    while i < b
        invariant
            a <= i <= b <= src@.len(),
            forall|k: int| a <= k < i ==> src@[k] == sep || src@[k] == tab,
        decreases b - i,
    {
        if !(src[i] == sep || src[i] == tab) {
            return false;
        }
        i += 1;
    }
    true
}

/// A run length as counted by a saturating `u8` counter.
pub open spec fn sat8(n: int) -> int {
    if n > 255 {
        255
    } else {
        n
    }
}

/// The position after the line ending at `le`: `le + 1`, or `len` when the
/// line runs to the end of the source.
pub open spec fn after_line(len: int, le: int) -> int {
    if le < len {
        le + 1
    } else {
        len
    }
}

/// A run read forward from `p` with a saturating `u8` counter, as the fence
/// rules count it.
pub fn scan_run_sat(src: &[u8], p: usize, b: u8) -> (r: (usize, u8))
    requires
        p <= src@.len(),
    ensures
        r.0 == run_end(src@, p as int, b),
        r.1 == sat8(r.0 - p),
{
    proof {
        lemma_run_end(src@, p as int, b);
    }
    let len = src.len();
    let mut c = 0u8;
    let mut end = p;
    while end < len && src[end] == b
        invariant
            p <= end <= len,
            len == src@.len(),
            c == sat8(end - p),
            run_end(src@, end as int, b) == run_end(src@, p as int, b),
        decreases len - end,
    {
        c = c.saturating_add(1);
        end += 1;
    }
    (end, c)
}

/// Paragraph-bounded close search from `j`: the first `needle` byte at or
/// after `j`. A single `eol` is ordinary content; an `eol` followed by
/// another `eol` (an empty line) or by the end of input ends the search with
/// no match. Escapes are not checked on close.
pub open spec fn para_find(s: Seq<u8>, needle: u8, eol: u8, j: int) -> Option<int>
    decreases s.len() - j,
{
    if j < 0 {
        None
    } else {
        match find2(s, j, needle, eol) {
            None => None,
            Some(q) => {
                proof {
                    lemma_find2(s, j, needle, eol);
                }
                if s[q] == eol {
                    if q + 1 >= s.len() || s[q + 1] == eol {
                        None
                    } else {
                        para_find(s, needle, eol, q + 1)
                    }
                } else {
                    Some(q)
                }
            },
        }
    }
}

/// `para_find` finds the first `needle` of the paragraph.
pub proof fn lemma_para_find(s: Seq<u8>, needle: u8, eol: u8, j: int)
    requires
        0 <= j <= s.len(),
    ensures
        para_find(s, needle, eol, j) matches Some(q) ==> {
            &&& j <= q < s.len()
            &&& s[q] == needle
            &&& s[q] != eol
            &&& (forall|i: int| j <= i < q ==> #[trigger] s[i] != needle)
            &&& (forall|i: int| j <= i < q && #[trigger] s[i] == eol ==> i + 1 < s.len() && s[i + 1] != eol)
        },
    decreases s.len() - j,
{
    lemma_find2(s, j, needle, eol);
    match find2(s, j, needle, eol) {
        None => {},
        Some(q) => {
            if s[q] == eol {
                if !(q + 1 >= s.len() || s[q + 1] == eol) {
                    lemma_para_find(s, needle, eol, q + 1);
                }
            }
        },
    }
}

/// The paragraph search finds a `needle` at `q` when none comes before it
/// from `j` and no line in between is followed by an empty line.
pub proof fn lemma_para_finds(s: Seq<u8>, needle: u8, eol: u8, j: int, q: int)
    requires
        0 <= j <= q < s.len(),
        s[q] == needle,
        needle != eol,
        forall|i: int| j <= i < q ==> #[trigger] s[i] != needle,
        forall|i: int| j <= i < q && #[trigger] s[i] == eol ==> i + 1 < s.len() && s[i + 1] != eol,
    ensures
        para_find(s, needle, eol, j) == Some(q),
    decreases q - j,
{
    lemma_find2(s, j, needle, eol);
    let r = find2(s, j, needle, eol)->0;
    assert(r <= q);
    if s[r] == eol {
        assert(s[r] == eol);
        lemma_para_finds(s, needle, eol, r + 1, q);
    }
}

/// Skip `sep`/`tab` bytes forward from `p`, not past `le`.
pub open spec fn skip_blank(s: Seq<u8>, p: int, le: int, sep: u8, tab: u8) -> int
    decreases le - p,
{
    if 0 <= p < le && p < s.len() && (s[p] == sep || s[p] == tab) {
        skip_blank(s, p + 1, le, sep, tab)
    } else {
        p
    }
}

/// Walk back over `sep`/`tab` bytes from `k`.
pub open spec fn back_blank(s: Seq<u8>, k: int, sep: u8, tab: u8) -> int
    decreases k,
{
    if 0 < k <= s.len() && (s[k - 1] == sep || s[k - 1] == tab) {
        back_blank(s, k - 1, sep, tab)
    } else {
        k
    }
}

/// `skip_blank` stops at the first non-blank byte, or at `le`.
pub proof fn lemma_skip_blank(s: Seq<u8>, p: int, le: int, sep: u8, tab: u8)
    requires
        0 <= p <= le <= s.len(),
    ensures
        p <= skip_blank(s, p, le, sep, tab) <= le,
        blank_in(s, p, skip_blank(s, p, le, sep, tab), sep, tab),
        skip_blank(s, p, le, sep, tab) < le ==> !(s[skip_blank(s, p, le, sep, tab)] == sep
            || s[skip_blank(s, p, le, sep, tab)] == tab),
    decreases le - p,
{
    if p < le && (s[p] == sep || s[p] == tab) {
        lemma_skip_blank(s, p + 1, le, sep, tab);
    }
}

/// `back_blank` stops after the last non-blank byte before `k`, or at 0.
pub proof fn lemma_back_blank(s: Seq<u8>, k: int, sep: u8, tab: u8)
    requires
        0 <= k <= s.len(),
    ensures
        0 <= back_blank(s, k, sep, tab) <= k,
        blank_in(s, back_blank(s, k, sep, tab), k, sep, tab),
        back_blank(s, k, sep, tab) > 0 ==> !(s[back_blank(s, k, sep, tab) - 1] == sep
            || s[back_blank(s, k, sep, tab) - 1] == tab),
    decreases k,
{
    if 0 < k && (s[k - 1] == sep || s[k - 1] == tab) {
        lemma_back_blank(s, k - 1, sep, tab);
    }
}

/// Walking back over a blank stretch `[a, p)` from `p` reaches at least `a`.
pub proof fn lemma_back_blank_from(s: Seq<u8>, a: int, p: int, sep: u8, tab: u8)
    requires
        0 <= a <= p <= s.len(),
        blank_in(s, a, p, sep, tab),
    ensures
        back_blank(s, p, sep, tab) == back_blank(s, a, sep, tab),
    decreases p - a,
{
    if p > a {
        lemma_back_blank_from(s, a, p - 1, sep, tab);
    }
}

} // verus!
