//! [`BlockNumberedIter`]: numbered block item standalone iterator.
use vstd::prelude::*;
use crate::search::{findn, line_end, lemma_findn, lemma_find1, lemma_findn_skip, find_any_of};
use crate::span::{Span, MAX_INPUT_LEN};
use super::common::{
    after_line, find_line_end, skip_blank, back_blank, lemma_skip_blank, lemma_back_blank,
    lemma_back_blank_from, blank_in,
};
use super::probe::{accepted, probe_matcher};

verus! {

/// An ASCII decimal digit.
pub open spec fn is_digit(b: u8) -> bool {
    48 <= b <= 57
}

/// Every byte of `s[a..b]` is a digit.
pub open spec fn all_digits(s: Seq<u8>, a: int, b: int) -> bool {
    forall|i: int| a <= i < b ==> is_digit(#[trigger] s[i])
}

/// Walk back over at most `n` digits from `k`.
pub open spec fn back_digits(s: Seq<u8>, k: int, n: int) -> int
    decreases n,
{
    if n > 0 && 0 < k <= s.len() && is_digit(s[k - 1]) {
        back_digits(s, k - 1, n - 1)
    } else {
        k
    }
}

/// Walk forward over at most `n` digits from `i`, not past `le`.
pub open spec fn fwd_digits(s: Seq<u8>, i: int, le: int, n: int) -> int
    decreases n,
{
    if n > 0 && 0 <= i < le && i < s.len() && is_digit(s[i]) {
        fwd_digits(s, i + 1, le, n - 1)
    } else {
        i
    }
}

/// The decimal value of the digits `s[k..p]`.
pub open spec fn digits_value(s: Seq<u8>, k: int, p: int) -> int
    decreases p - k,
{
    if p <= k {
        0
    } else {
        digits_value(s, k, p - 1) * 10 + (s[p - 1] - 48)
    }
}

/// Ten to the power `n`.
pub open spec fn pow10(n: int) -> int
    decreases n,
{
    if n <= 0 {
        1
    } else {
        10 * pow10(n - 1)
    }
}

proof fn lemma_pow10_mono(a: int, b: int)
    requires
        0 <= a <= b,
    ensures
        1 <= pow10(a) <= pow10(b),
    decreases b,
{
    if b > a {
        lemma_pow10_mono(a, b - 1);
    } else if a > 0 {
        lemma_pow10_mono(a - 1, a - 1);
    }
}

/// A run of `n` digits has a value below `10^n`.
proof fn lemma_digits_value_bound(s: Seq<u8>, k: int, p: int)
    requires
        0 <= k <= p <= s.len(),
        all_digits(s, k, p),
    ensures
        0 <= digits_value(s, k, p) < pow10(p - k),
    decreases p - k,
{
    if p > k {
        lemma_digits_value_bound(s, k, p - 1);
        let v = digits_value(s, k, p - 1);
        let q = pow10(p - 1 - k);
        assert(is_digit(s[p - 1]));
        assert(v * 10 + 9 < q * 10) by (nonlinear_arith)
            requires
                0 <= v < q,
        ;
    }
}

/// Nine digits fit a `u32`; eight leave room for one more.
proof fn lemma_digits_fit(s: Seq<u8>, k: int, p: int)
    requires
        0 <= k <= p <= s.len(),
        p - k <= 9,
        all_digits(s, k, p),
    ensures
        0 <= digits_value(s, k, p) < 1000000000,
        p - k <= 8 ==> digits_value(s, k, p) < 100000000,
{
    lemma_digits_value_bound(s, k, p);
    assert(pow10(8) == 100000000) by {
        reveal_with_fuel(pow10, 9);
    }
    lemma_pow10_mono(p - k, 9);
    if p - k <= 8 {
        lemma_pow10_mono(p - k, 8);
    }
}

proof fn lemma_back_digits(s: Seq<u8>, k: int, n: int)
    requires
        0 <= k <= s.len(),
        0 <= n,
    ensures
        k - n <= back_digits(s, k, n) <= k,
        0 <= back_digits(s, k, n),
        all_digits(s, back_digits(s, k, n), k),
        back_digits(s, k, n) > k - n && back_digits(s, k, n) > 0 ==> !is_digit(
            s[back_digits(s, k, n) - 1],
        ),
    decreases n,
{
    if n > 0 && 0 < k && is_digit(s[k - 1]) {
        lemma_back_digits(s, k - 1, n - 1);
    }
}

proof fn lemma_fwd_digits(s: Seq<u8>, i: int, le: int, n: int)
    requires
        0 <= i <= le <= s.len(),
        0 <= n,
    ensures
        i <= fwd_digits(s, i, le, n) <= le,
        fwd_digits(s, i, le, n) <= i + n,
        all_digits(s, i, fwd_digits(s, i, le, n)),
    decreases n,
{
    if n > 0 && i < le && is_digit(s[i]) {
        lemma_fwd_digits(s, i + 1, le, n - 1);
    }
}

/// The state of a numbered-block scan. `accept` is the delimiter
/// predicate's answer for every byte; when it accepts at most three bytes,
/// `streaming` holds and `needles` are those bytes.
pub struct BlockNumberedScan {
    pub src: Seq<u8>,
    pub eol: u8,
    pub sep: u8,
    pub tab: u8,
    pub accept: Seq<bool>,
    pub needles: Seq<u8>,
    pub streaming: bool,
    pub pos: int,
}

impl BlockNumberedScan {
    /// The same scan resumed at `pos`.
    pub open spec fn at(self, pos: int) -> BlockNumberedScan {
        BlockNumberedScan { pos, ..self }
    }

    /// The next item by the line-by-line rule: on each line from `pos`,
    /// after leading `sep`/`tab`, up to nine digits, then an accepted
    /// delimiter byte, then `sep` or `tab`; the content runs from after
    /// that separator to the end of the line.
    pub open spec fn line_step(self) -> Option<((u32, u8, Span), int)>
        decreases self.src.len() - self.pos,
    {
        let s = self.src;
        let len = s.len() as int;
        if self.pos < 0 || self.pos >= len {
            None
        } else {
            let le = line_end(s, self.pos, self.eol);
            let p = skip_blank(s, self.pos, le, self.sep, self.tab);
            let i = fwd_digits(s, p, le, 9);
            proof {
                lemma_find1(s, self.pos, self.eol);
            }
            if p < le && is_digit(s[p]) && 0 <= i && i < le && self.accept[s[i] as int] && i + 1
                < le && (s[i + 1] == self.sep || s[i + 1] == self.tab) {
                Some(((digits_value(s, p, i) as u32, s[i], Span::mk(i + 2, le)), after_line(len, le)))
            } else {
                self.at(after_line(len, le)).line_step()
            }
        }
    }

    /// The next item by the streaming rule: the next needle byte preceded
    /// by one to nine digits (and no further digit), those by only
    /// `sep`/`tab` on their line, and followed by `sep` or `tab`. A failed
    /// hit is rejected in place: the search resumes just after it.
    pub open spec fn stream_step(self) -> Option<((u32, u8, Span), int)>
        decreases self.src.len() - self.pos,
    {
        let s = self.src;
        let len = s.len() as int;
        if self.pos < 0 {
            None
        } else {
            match findn(s, self.pos, self.needles) {
                None => None,
                Some(p) => {
                    proof {
                        lemma_findn(s, self.pos, self.needles);
                    }
                    let k = back_digits(s, p, 9);
                    let ls = back_blank(s, k, self.sep, self.tab);
                    if k == p || (k > 0 && is_digit(s[k - 1])) {
                        self.at(p + 1).stream_step()
                    } else if ls > 0 && s[ls - 1] != self.eol {
                        self.at(p + 1).stream_step()
                    } else if p + 1 < len && (s[p + 1] == self.sep || s[p + 1] == self.tab) {
                        let le = line_end(s, p + 2, self.eol);
                        Some(
                            (
                                (digits_value(s, k, p) as u32, s[p], Span::mk(p + 2, le)),
                                after_line(len, le),
                            ),
                        )
                    } else {
                        self.at(p + 1).stream_step()
                    }
                },
            }
        }
    }

    /// The next item: by the streaming rule when `streaming`, else by the
    /// line-by-line rule.
    pub open spec fn step(self) -> Option<((u32, u8, Span), int)> {
        if self.streaming {
            self.stream_step()
        } else {
            self.line_step()
        }
    }

    /// Every item at or after `pos`, in order.
    pub open spec fn remaining(self) -> Seq<(u32, u8, Span)>
        decreases self.src.len() - self.pos,
    {
        match self.step() {
            None => Seq::empty(),
            Some((it, np)) => if np <= self.pos || np > self.src.len() {
                Seq::empty()
            } else {
                seq![it] + self.at(np).remaining()
            },
        }
    }
}

/// A numbered item whose digits are `s[k..m]`: one to nine digits, preceded
/// on their line only by `sep`/`tab`, then the delimiter at `m`, then `sep`
/// or `tab`; the content runs to the end of the line and the number is the
/// digits' value.
pub open spec fn numbered_at(
    s: Seq<u8>,
    eol: u8,
    sep: u8,
    tab: u8,
    k: int,
    item: (u32, u8, Span),
) -> bool {
    let m = item.2.start - 2;
    let e = item.2.end as int;
    &&& 0 <= k < m && m - k <= 9
    &&& m + 2 <= e <= s.len()
    &&& all_digits(s, k, m)
    &&& s[m] == item.1
    &&& (s[m + 1] == sep || s[m + 1] == tab)
    &&& e == line_end(s, m + 2, eol)
    &&& item.0 == digits_value(s, k, m)
    &&& exists|ls: int|
        0 <= ls <= k && (ls == 0 || s[ls - 1] == eol) && #[trigger] blank_in(s, ls, k, sep, tab)
}

/// What a numbered item is: for some start of its digit run.
pub open spec fn numbered_match(s: Seq<u8>, eol: u8, sep: u8, tab: u8, item: (u32, u8, Span)) -> bool {
    exists|k: int| #[trigger] numbered_at(s, eol, sep, tab, k, item)
}

/// The item a step yields, and where it resumes: forward, after the item's
/// line end.
pub open spec fn numbered_step_ok(sc: BlockNumberedScan, it: (u32, u8, Span), np: int) -> bool {
    &&& sc.pos < np <= sc.src.len()
    &&& sc.pos <= it.2.start - 2
    &&& it.2.end < np || it.2.end == np == sc.src.len()
    &&& np == sc.src.len() || sc.src[np - 1] == sc.eol
    &&& numbered_match(sc.src, sc.eol, sc.sep, sc.tab, it)
}

/// A streaming step moves forward and yields a numbered item whose
/// delimiter is one of the needles.
pub proof fn lemma_block_numbered_stream_step(sc: BlockNumberedScan)
    requires
        0 <= sc.pos <= sc.src.len() <= u32::MAX,
    ensures
        sc.stream_step() matches Some((it, np)) ==> numbered_step_ok(sc, it, np)
            && sc.needles.contains(it.1),
    decreases sc.src.len() - sc.pos,
{
    let s = sc.src;
    let len = s.len() as int;
    lemma_findn(s, sc.pos, sc.needles);
    match findn(s, sc.pos, sc.needles) {
        None => {},
        Some(p) => {
            lemma_back_digits(s, p, 9);
            let k = back_digits(s, p, 9);
            lemma_back_blank(s, k, sc.sep, sc.tab);
            let ls = back_blank(s, k, sc.sep, sc.tab);
            if k == p || (k > 0 && is_digit(s[k - 1])) {
                lemma_block_numbered_stream_step(sc.at(p + 1));
            } else if ls > 0 && s[ls - 1] != sc.eol {
                lemma_block_numbered_stream_step(sc.at(p + 1));
            } else if p + 1 < len && (s[p + 1] == sc.sep || s[p + 1] == sc.tab) {
                lemma_find1(s, p + 2, sc.eol);
                lemma_digits_fit(s, k, p);
                let it = (digits_value(s, k, p) as u32, s[p], Span::mk(p + 2, line_end(s, p + 2, sc.eol)));
                assert(blank_in(s, ls, k, sc.sep, sc.tab));
                assert(numbered_at(s, sc.eol, sc.sep, sc.tab, k, it));
            } else {
                lemma_block_numbered_stream_step(sc.at(p + 1));
            }
        },
    }
}

/// A line-by-line step from a line start moves forward and yields a
/// numbered item whose delimiter is accepted.
pub proof fn lemma_block_numbered_line_step(sc: BlockNumberedScan)
    requires
        0 <= sc.pos <= sc.src.len() <= u32::MAX,
        sc.pos == 0 || sc.pos == sc.src.len() || sc.src[sc.pos - 1] == sc.eol,
        sc.accept.len() == 256,
    ensures
        sc.line_step() matches Some((it, np)) ==> numbered_step_ok(sc, it, np)
            && sc.accept[it.1 as int],
    decreases sc.src.len() - sc.pos,
{
    let s = sc.src;
    let len = s.len() as int;
    if sc.pos < len {
        let le = line_end(s, sc.pos, sc.eol);
        lemma_find1(s, sc.pos, sc.eol);
        lemma_skip_blank(s, sc.pos, le, sc.sep, sc.tab);
        let p = skip_blank(s, sc.pos, le, sc.sep, sc.tab);
        lemma_fwd_digits(s, p, le, 9);
        let i = fwd_digits(s, p, le, 9);
        if p < le && is_digit(s[p]) && 0 <= i && i < le && sc.accept[s[i] as int] && i + 1 < le
            && (s[i + 1] == sc.sep || s[i + 1] == sc.tab) {
            lemma_find1(s, i + 2, sc.eol);
            assert(line_end(s, i + 2, sc.eol) == le);
            lemma_digits_fit(s, p, i);
            lemma_fwd_digits(s, p + 1, le, 8);
            let it = (digits_value(s, p, i) as u32, s[i], Span::mk(i + 2, le));
            assert(blank_in(s, sc.pos, p, sc.sep, sc.tab));
            assert(numbered_at(s, sc.eol, sc.sep, sc.tab, p, it));
        } else {
            lemma_block_numbered_line_step(sc.at(after_line(len, le)));
        }
    }
}


/// `fwd_digits` stops at the first point where the run ends, the cap is
/// reached, or the line ends.
proof fn lemma_fwd_digits_is(s: Seq<u8>, i: int, le: int, n: int, p: int)
    requires
        0 <= i <= p <= le <= s.len(),
        p - i <= n,
        all_digits(s, i, p),
        p == le || p - i == n || !is_digit(s[p]),
    ensures
        fwd_digits(s, i, le, n) == p,
    decreases n,
{
    if i < p {
        lemma_fwd_digits_is(s, i + 1, le, n - 1, p);
    }
}

/// `skip_blank` stops at the first non-blank byte.
proof fn lemma_skip_blank_is(s: Seq<u8>, pos: int, le: int, k: int, sep: u8, tab: u8)
    requires
        0 <= pos <= k < le <= s.len(),
        blank_in(s, pos, k, sep, tab),
        !(s[k] == sep || s[k] == tab),
    ensures
        skip_blank(s, pos, le, sep, tab) == k,
    decreases k - pos,
{
    if pos < k {
        lemma_skip_blank_is(s, pos + 1, le, k, sep, tab);
    }
}

/// The conditions under which the two rules agree: the needles are exactly
/// the accepted bytes; no digit, separator or line terminator is accepted;
/// no separator or line terminator is a digit; and the line terminator is
/// not a separator.
pub open spec fn rules_agree_on(sc: BlockNumberedScan) -> bool {
    &&& sc.accept.len() == 256
    &&& forall|b: u8| sc.needles.contains(b) == sc.accept[b as int]
    &&& forall|b: u8| is_digit(b) ==> !sc.accept[b as int]
    &&& !sc.accept[sc.eol as int]
    &&& !sc.accept[sc.sep as int]
    &&& !sc.accept[sc.tab as int]
    &&& !is_digit(sc.eol) && !is_digit(sc.sep) && !is_digit(sc.tab)
    &&& sc.eol != sc.sep
    &&& sc.eol != sc.tab
}

impl BlockNumberedScan {
    /// Does the line starting at `ls` hold an item by the line-by-line rule?
    pub open spec fn line_hit(self, ls: int) -> bool {
        let s = self.src;
        let le = line_end(s, ls, self.eol);
        let p = skip_blank(s, ls, le, self.sep, self.tab);
        let i = fwd_digits(s, p, le, 9);
        p < le && is_digit(s[p]) && 0 <= i && i < le && self.accept[s[i] as int] && i + 1 < le && (
        s[i + 1] == self.sep || s[i + 1] == self.tab)
    }
}

/// Within a line that holds no item by the line-by-line rule, the
/// streaming rule finds nothing either: from any point of the line it goes
/// on as from the next line.
proof fn lemma_stream_skips_line(sc: BlockNumberedScan, ls: int)
    requires
        0 <= ls < sc.src.len(),
        ls == 0 || sc.src[ls - 1] == sc.eol,
        ls <= sc.pos <= line_end(sc.src, ls, sc.eol),
        rules_agree_on(sc),
        !sc.line_hit(ls),
    ensures
        sc.stream_step() == sc.at(after_line(sc.src.len() as int, line_end(sc.src, ls, sc.eol))).stream_step(),
    decreases sc.src.len() - sc.pos,
{
    let s = sc.src;
    let len = s.len() as int;
    lemma_find1(s, ls, sc.eol);
    let le = line_end(s, ls, sc.eol);
    let next = after_line(len, le);
    lemma_findn(s, sc.pos, sc.needles);
    match findn(s, sc.pos, sc.needles) {
        None => {
            lemma_findn(s, next, sc.needles);
        },
        Some(p) => {
            if p >= le {
                assert(p != le);
                assert forall|j: int| sc.pos <= j < next implies !sc.needles.contains(
                    #[trigger] s[j],
                ) by {}
                lemma_findn_skip(s, sc.pos, next, sc.needles);
            } else {
                lemma_back_digits(s, p, 9);
                let k = back_digits(s, p, 9);
                lemma_back_blank(s, k, sc.sep, sc.tab);
                let lb = back_blank(s, k, sc.sep, sc.tab);
                if !(k == p || (k > 0 && is_digit(s[k - 1]))) && !(lb > 0 && s[lb - 1] != sc.eol)
                    && p + 1 < len && (s[p + 1] == sc.sep || s[p + 1] == sc.tab) {
                    if k < ls {
                        assert(is_digit(s[ls - 1]));
                    }
                    if lb < ls {
                        assert(s[ls - 1] == sc.sep || s[ls - 1] == sc.tab);
                    }
                    if lb > ls {
                        assert(s[lb - 1] != sc.eol);
                    }
                    assert(lb == ls);
                    assert(is_digit(s[k]));
                    lemma_skip_blank_is(s, ls, le, k, sc.sep, sc.tab);
                    assert(!is_digit(s[p]));
                    lemma_fwd_digits_is(s, k, le, 9, p);
                    assert(p + 1 < le);
                    assert(sc.line_hit(ls));
                }
                lemma_stream_skips_line(sc.at(p + 1), ls);
            }
        },
    }
}

/// From a line start, the streaming rule and the line-by-line rule give the
/// same next item at the same resume position.
pub proof fn lemma_block_numbered_rules_agree(sc: BlockNumberedScan)
    requires
        0 <= sc.pos <= sc.src.len() <= u32::MAX,
        sc.pos == 0 || sc.pos == sc.src.len() || sc.src[sc.pos - 1] == sc.eol,
        rules_agree_on(sc),
    ensures
        sc.stream_step() == sc.line_step(),
    decreases sc.src.len() - sc.pos,
{
    let s = sc.src;
    let len = s.len() as int;
    if sc.pos < len {
        lemma_find1(s, sc.pos, sc.eol);
        let le = line_end(s, sc.pos, sc.eol);
        let next = after_line(len, le);
        if sc.line_hit(sc.pos) {
            lemma_skip_blank(s, sc.pos, le, sc.sep, sc.tab);
            let p0 = skip_blank(s, sc.pos, le, sc.sep, sc.tab);
            lemma_fwd_digits(s, p0, le, 9);
            let m = fwd_digits(s, p0, le, 9);
            lemma_fwd_digits(s, p0 + 1, le, 8);
            lemma_findn(s, sc.pos, sc.needles);
            assert forall|j: int| sc.pos <= j < m implies !sc.needles.contains(#[trigger] s[j]) by {
                if j >= p0 {
                    assert(is_digit(s[j]));
                }
            }
            assert(sc.needles.contains(s[m]));
            lemma_findn_skip(s, sc.pos, m, sc.needles);
            assert(findn(s, m, sc.needles) == Some(m));
            lemma_back_digits(s, m, 9);
            let k = back_digits(s, m, 9);
            if k < p0 {
                assert(is_digit(s[p0 - 1]));
                if p0 > sc.pos {
                    assert(s[p0 - 1] == sc.sep || s[p0 - 1] == sc.tab);
                }
                assert(false);
            }
            if k > p0 {
                assert(m - p0 <= 9);
                assert(k - 1 >= p0);
                assert(is_digit(s[k - 1]));
                assert(false);
            }
            assert(k == p0);
            if k > 0 && is_digit(s[k - 1]) {
                if p0 > sc.pos {
                    assert(s[p0 - 1] == sc.sep || s[p0 - 1] == sc.tab);
                }
                assert(false);
            }
            lemma_back_blank(s, k, sc.sep, sc.tab);
            lemma_back_blank_from(s, sc.pos, k, sc.sep, sc.tab);
            assert(back_blank(s, sc.pos, sc.sep, sc.tab) == sc.pos);
            lemma_find1(s, m + 2, sc.eol);
            assert(line_end(s, m + 2, sc.eol) == le);
        } else {
            lemma_stream_skips_line(sc, sc.pos);
            lemma_block_numbered_rules_agree(sc.at(next));
        }
    }
}

/// The streaming rule does not read the rule flag.
proof fn lemma_stream_flag(sc: BlockNumberedScan, flag: bool)
    ensures
        sc.stream_step() == (BlockNumberedScan { streaming: flag, ..sc }).stream_step(),
    decreases sc.src.len() - sc.pos,
{
    let s = sc.src;
    let len = s.len() as int;
    if sc.pos >= 0 {
        lemma_findn(s, sc.pos, sc.needles);
        match findn(s, sc.pos, sc.needles) {
            None => {},
            Some(p) => {
                let nx = sc.at(p + 1);
                lemma_stream_flag(nx, flag);
                assert((BlockNumberedScan { streaming: flag, ..sc }).at(nx.pos) == (
                BlockNumberedScan { streaming: flag, ..nx }));
            },
        }
    }
}

/// The line-by-line rule does not read the rule flag.
proof fn lemma_line_flag(sc: BlockNumberedScan, flag: bool)
    ensures
        sc.line_step() == (BlockNumberedScan { streaming: flag, ..sc }).line_step(),
    decreases sc.src.len() - sc.pos,
{
    let s = sc.src;
    let len = s.len() as int;
    if 0 <= sc.pos < len {
        lemma_find1(s, sc.pos, sc.eol);
        let nx = sc.at(after_line(len, line_end(s, sc.pos, sc.eol)));
        lemma_line_flag(nx, flag);
        assert((BlockNumberedScan { streaming: flag, ..sc }).at(nx.pos) == (BlockNumberedScan {
            streaming: flag,
            ..nx
        }));
    }
}

/// The streaming and the line-by-line scans yield the same items: which
/// rule the probe picked does not change what is found.
pub proof fn lemma_block_numbered_remaining_agree(sc: BlockNumberedScan)
    requires
        0 <= sc.pos <= sc.src.len() <= u32::MAX,
        sc.pos == 0 || sc.pos == sc.src.len() || sc.src[sc.pos - 1] == sc.eol,
        rules_agree_on(sc),
    ensures
        sc.remaining() == (BlockNumberedScan { streaming: !sc.streaming, ..sc }).remaining(),
    decreases sc.src.len() - sc.pos,
{
    let other = BlockNumberedScan { streaming: !sc.streaming, ..sc };
    lemma_stream_flag(sc, !sc.streaming);
    lemma_line_flag(sc, !sc.streaming);
    lemma_block_numbered_rules_agree(sc);
    lemma_block_numbered_line_step(sc);
    assert(sc.step() == other.step());
    match sc.step() {
        None => {},
        Some((it, np)) => {
            lemma_block_numbered_remaining_agree(sc.at(np));
            assert(other.at(np) == (BlockNumberedScan { streaming: !sc.streaming, ..sc.at(np) }));
        },
    }
}

/// The line-by-line rule reads the accept table only at bytes of the
/// source.
proof fn lemma_block_numbered_line_tables(a: BlockNumberedScan, b: BlockNumberedScan)
    requires
        a.src == b.src,
        a.eol == b.eol,
        a.sep == b.sep,
        a.tab == b.tab,
        a.pos == b.pos,
        forall|i: int|
            0 <= i < a.src.len() ==> a.accept[#[trigger] a.src[i] as int] == b.accept[a.src[i] as int],
    ensures
        a.line_step() == b.line_step(),
    decreases a.src.len() - a.pos,
{
    let s = a.src;
    let len = s.len() as int;
    if 0 <= a.pos < len {
        lemma_find1(s, a.pos, a.eol);
        let le = line_end(s, a.pos, a.eol);
        let p = skip_blank(s, a.pos, le, a.sep, a.tab);
        let i = fwd_digits(s, p, le, 9);
        if 0 <= i && i < le {
            assert(a.accept[s[i] as int] == b.accept[s[i] as int]);
        }
        lemma_block_numbered_line_tables(a.at(after_line(len, le)), b.at(after_line(len, le)));
    }
}

/// Two line-by-line scans whose accept tables agree on the source's bytes
/// find the same items.
proof fn lemma_block_numbered_line_remaining(a: BlockNumberedScan, b: BlockNumberedScan)
    requires
        a.src == b.src,
        a.eol == b.eol,
        a.sep == b.sep,
        a.tab == b.tab,
        a.pos == b.pos,
        0 <= a.pos,
        !a.streaming,
        !b.streaming,
        forall|i: int|
            0 <= i < a.src.len() ==> a.accept[#[trigger] a.src[i] as int] == b.accept[a.src[i] as int],
    ensures
        a.remaining() == b.remaining(),
    decreases a.src.len() - a.pos,
{
    lemma_block_numbered_line_tables(a, b);
    match a.step() {
        None => {},
        Some((it, np)) => {
            if !(np <= a.pos || np > a.src.len()) {
                lemma_block_numbered_line_remaining(a.at(np), b.at(np));
            }
        },
    }
}

/// Two delimiter predicates that agree on every byte of the source find the
/// same items from a line start, whether each is searched for by its
/// needles (when it accepts at most three bytes) or line by line.
pub proof fn lemma_block_numbered_matcher_independent(a: BlockNumberedScan, b: BlockNumberedScan)
    requires
        a.src == b.src,
        a.eol == b.eol,
        a.sep == b.sep,
        a.tab == b.tab,
        a.pos == b.pos,
        0 <= a.pos <= a.src.len() <= u32::MAX,
        a.pos == 0 || a.pos == a.src.len() || a.src[a.pos - 1] == a.eol,
        a.accept.len() == 256,
        b.accept.len() == 256,
        forall|i: int|
            0 <= i < a.src.len() ==> a.accept[#[trigger] a.src[i] as int] == b.accept[a.src[i] as int],
        a.streaming ==> rules_agree_on(a),
        b.streaming ==> rules_agree_on(b),
    ensures
        a.remaining() == b.remaining(),
{
    let la = BlockNumberedScan { streaming: false, ..a };
    let lb = BlockNumberedScan { streaming: false, ..b };
    if a.streaming {
        lemma_block_numbered_remaining_agree(a);
    } else {
        assert(la == a);
    }
    if b.streaming {
        lemma_block_numbered_remaining_agree(b);
    } else {
        assert(lb == b);
    }
    lemma_block_numbered_line_remaining(la, lb);
}


/// Completeness of the numbered-item scan: when the line at the scan
/// position (a line start) has, after any amount of `sep`/`tab`
/// indentation, one to nine digits at `p..i`, an accepted delimiter at `i`
/// and then `sep` or `tab`, the scan yields the number those digits spell,
/// the delimiter, and the rest of the line after the separator, and resumes
/// on the next line.
pub proof fn lemma_block_numbered_complete(sc: BlockNumberedScan, p: int, i: int)
    requires
        0 <= sc.pos <= p,
        sc.src.len() <= u32::MAX,
        sc.pos == 0 || sc.src[sc.pos - 1] == sc.eol,
        sc.accept.len() == 256,
        sc.streaming ==> rules_agree_on(sc),
        blank_in(sc.src, sc.pos, p, sc.sep, sc.tab),
        sc.src[p] != sc.sep && sc.src[p] != sc.tab,
        1 <= i - p <= 9,
        all_digits(sc.src, p, i),
        !is_digit(sc.src[i]),
        i + 1 < line_end(sc.src, sc.pos, sc.eol),
        sc.accept[sc.src[i] as int],
        sc.src[i + 1] == sc.sep || sc.src[i + 1] == sc.tab,
    ensures
        sc.step() == Some(
            (
                (
                    digits_value(sc.src, p, i) as u32,
                    sc.src[i],
                    Span::mk(i + 2, line_end(sc.src, sc.pos, sc.eol)),
                ),
                after_line(sc.src.len() as int, line_end(sc.src, sc.pos, sc.eol)),
            ),
        ),
{
    let s = sc.src;
    lemma_find1(s, sc.pos, sc.eol);
    let le = line_end(s, sc.pos, sc.eol);
    assert(is_digit(s[p]));
    lemma_skip_blank_is(s, sc.pos, le, p, sc.sep, sc.tab);
    lemma_fwd_digits_is(s, p, le, 9, i);
    if sc.streaming {
        lemma_block_numbered_rules_agree(sc);
    }
}

/// Every remaining item of a numbered-block scan from a line start is a
/// [`numbered_match`] at or after the scan position, and the items come in
/// source order without overlap.
pub proof fn lemma_block_numbered_remaining(sc: BlockNumberedScan)
    requires
        0 <= sc.pos <= sc.src.len() <= u32::MAX,
        sc.pos == 0 || sc.pos == sc.src.len() || sc.src[sc.pos - 1] == sc.eol,
        sc.accept.len() == 256,
    ensures
        forall|i: int|
            0 <= i < sc.remaining().len() ==>
                numbered_match(sc.src, sc.eol, sc.sep, sc.tab, #[trigger] sc.remaining()[i])
                    && sc.pos <= sc.remaining()[i].2.start,
        forall|i: int|
            0 <= i < sc.remaining().len() - 1 ==>
                #[trigger] sc.remaining()[i].2.end <= sc.remaining()[i + 1].2.start,
    decreases sc.src.len() - sc.pos,
{
    if sc.streaming {
        lemma_block_numbered_stream_step(sc);
    } else {
        lemma_block_numbered_line_step(sc);
    }
    match sc.step() {
        None => {},
        Some((it, np)) => {
            if !(np <= sc.pos || np > sc.src.len()) {
                let rest = sc.at(np);
                lemma_block_numbered_remaining(rest);
                let r = sc.remaining();
                let rr = rest.remaining();
                assert(r == seq![it] + rr);
                assert forall|i: int| 0 <= i < r.len() implies
                    numbered_match(sc.src, sc.eol, sc.sep, sc.tab, #[trigger] r[i])
                        && sc.pos <= r[i].2.start by {
                    if i > 0 {
                        assert(r[i] == rr[i - 1]);
                    }
                }
                assert forall|i: int| 0 <= i < r.len() - 1 implies
                    #[trigger] r[i].2.end <= r[i + 1].2.start by {
                    assert(r[i + 1] == rr[i]);
                    if i > 0 {
                        assert(r[i] == rr[i - 1]);
                    }
                }
            }
        },
    }
}

/// Whether `b` is an ASCII decimal digit.
fn digit(b: u8) -> (r: bool)
    ensures
        r == is_digit(b),
{
    48 <= b && b <= 57
}

/// The value of the digit run `src[k..p]`.
fn parse_digits(src: &[u8], k: usize, p: usize) -> (r: u32)
    requires
        k <= p <= src@.len(),
        p - k <= 9,
        all_digits(src@, k as int, p as int),
    ensures
        r == digits_value(src@, k as int, p as int),
{
    let mut num: u32 = 0;
    let mut i = k;
    while i < p
        invariant
            k <= i <= p <= src@.len(),
            p - k <= 9,
            all_digits(src@, k as int, p as int),
            num == digits_value(src@, k as int, i as int),
        decreases p - i,
    {
        proof {
            lemma_digits_fit(src@, k as int, i as int);
            assert(is_digit(src@[i as int]));
        }
        num = num * 10 + (src[i] - 48) as u32;
        i += 1;
    }
    num
}

/// The iterator over numbered block items of a byte slice.
///
/// Matches lines where, after optional leading `sep`/`tab`, one to nine
/// ASCII digits are followed by a byte accepted by `end_matches` and then by
/// `sep` or `tab`. The item's metadata is `make(number, delimiter)`, and its
/// span covers the rest of the line after that separator.
///
/// `end_matches` is probed over all 256 bytes at construction: when it
/// accepts at most three, the scan is streaming (one search for the
/// delimiter bytes, then a backward walk over the digit run and the
/// indentation); otherwise it goes line by line.
#[verifier::reject_recursive_types(T)]
#[verifier::reject_recursive_types(E)]
#[verifier::reject_recursive_types(F)]
pub struct BlockNumberedIter<'a, T, E, F> where E: Fn(u8) -> bool, F: Fn(u32, u8) -> T {
    src: &'a [u8],
    eol: u8,
    sep: u8,
    tab: u8,
    #[allow(dead_code)]
    end_matches: E,
    make: F,
    pos: usize,
    accept: Vec<bool>,
    needles: [u8; 3],
    nn: usize,
    streaming: bool,
    _t: std::marker::PhantomData<T>,
}

impl<'a, T, E, F> View for BlockNumberedIter<'a, T, E, F> where
    E: Fn(u8) -> bool,
    F: Fn(u32, u8) -> T,
 {
    type V = BlockNumberedScan;

    closed spec fn view(&self) -> BlockNumberedScan {
        BlockNumberedScan {
            src: self.src@,
            eol: self.eol,
            sep: self.sep,
            tab: self.tab,
            accept: self.accept@,
            needles: self.needles@.take(self.nn as int),
            streaming: self.streaming,
            pos: self.pos as int,
        }
    }
}

impl<'a, T, E, F> BlockNumberedIter<'a, T, E, F> where E: Fn(u8) -> bool, F: Fn(u32, u8) -> T {
    #[verifier::type_invariant]
    spec fn inv(self) -> bool {
        &&& self.pos <= self.src@.len()
        &&& self.src@.len() <= MAX_INPUT_LEN
        &&& self.accept@.len() == 256
        &&& self.nn <= 3
        &&& forall|n: u32, c: u8| call_requires(self.make, (n, c))
    }

    /// The closure that builds each item's metadata from its number and
    /// delimiter byte.
    pub closed spec fn maker(&self) -> F {
        self.make
    }

    /// Create an iterator over numbered block items of `src`.
    pub fn new(src: &'a [u8], eol: u8, sep: u8, tab: u8, end_matches: E, make: F) -> (it: Self)
        requires
            src@.len() <= MAX_INPUT_LEN,
            forall|b: u8| call_requires(end_matches, (b,)),
            forall|n: u32, c: u8| call_requires(make, (n, c)),
        ensures
            it@.src == src@,
            it@.eol == eol,
            it@.sep == sep,
            it@.tab == tab,
            it@.pos == 0,
            it@.accept.len() == 256,
            forall|b: u8| call_ensures(end_matches, (b,), #[trigger] it@.accept[b as int]),
            it@.streaming == (accepted(it@.accept, 256).len() <= 3),
            it@.streaming ==> it@.needles == accepted(it@.accept, 256),
            it.maker() == make,
    {
        let mut needles = [0u8; 3];
        let (probe, accept) = probe_matcher(&end_matches, &mut needles);
        let (nn, streaming) = match probe {
            Some(n) => (n, true),
            None => (0, false),
        };
        BlockNumberedIter {
            src,
            eol,
            sep,
            tab,
            end_matches,
            make,
            pos: 0,
            accept,
            needles,
            nn,
            streaming,
            _t: std::marker::PhantomData,
        }
    }

    /// Streaming scan: search for the probed delimiter bytes, walk back over
    /// the digit run (at most nine digits) and the `sep`/`tab` indentation,
    /// then check the separator after the delimiter.
    fn next_streaming(&mut self) -> (r: Option<(T, Span)>)
        requires
            old(self)@.streaming,
        ensures
            final(self)@ == old(self)@.at(final(self)@.pos),
            final(self).maker() == old(self).maker(),
            match old(self)@.step() {
                Some((it, np)) => r matches Some((meta, sp)) && sp == it.2 && call_ensures(
                    old(self).maker(),
                    (it.0, it.1),
                    meta,
                ) && final(self)@.pos == np,
                None => r is None && final(self)@.step() is None,
            },
    {
        proof {
            use_type_invariant(&*self);
        }
        let ghost sc0 = self@;
        let src = self.src;
        let len = src.len();
        let eol = self.eol;
        let sep = self.sep;
        let tab = self.tab;
        loop
            invariant
                self@ == sc0.at(self@.pos),
                sc0 == old(self)@,
                sc0.streaming,
                self.maker() == old(self).maker(),
                sc0.src == src@,
                len == src@.len() <= MAX_INPUT_LEN,
                eol == sc0.eol,
                sep == sc0.sep,
                tab == sc0.tab,
                0 <= self@.pos <= len,
                self@.step() == sc0.step(),
            decreases len - self@.pos,
        {
            proof {
                use_type_invariant(&*self);
                lemma_findn(src@, self@.pos, self@.needles);
            }
            let p = match find_any_of(&self.needles, self.nn, src, self.pos) {
                Some(p) => p,
                None => {
                    return None;
                },
            };
            proof {
                lemma_back_digits(src@, p as int, 9);
            }
            let mut k = p;
            let mut dc: u8 = 0;
            while k > 0 && digit(src[k - 1]) && dc < 9
                invariant
                    k <= p < len,
                    len == src@.len(),
                    dc <= 9,
                    k + dc == p,
                    back_digits(src@, k as int, 9 - dc) == back_digits(src@, p as int, 9),
                decreases k,
            {
                k -= 1;
                dc += 1;
            }
            if dc == 0 || (k > 0 && digit(src[k - 1])) {
                self.pos = p + 1;
                continue;
            }
            proof {
                lemma_back_blank(src@, k as int, sep, tab);
            }
            let mut ls = k;
            while ls > 0 && (src[ls - 1] == sep || src[ls - 1] == tab)
                invariant
                    ls <= k <= p < len,
                    len == src@.len(),
                    back_blank(src@, ls as int, sep, tab) == back_blank(src@, k as int, sep, tab),
                decreases ls,
            {
                ls -= 1;
            }
            if ls > 0 && src[ls - 1] != eol {
                self.pos = p + 1;
                continue;
            }
            let nxt = p + 1;
            if nxt < len && (src[nxt] == sep || src[nxt] == tab) {
                proof {
                    lemma_back_digits(src@, p as int, 9);
                }
                let num = parse_digits(src, k, p);
                let cs = nxt + 1;
                let le = find_line_end(src, cs, eol);
                proof {
                    use_type_invariant(&*self);
                    lemma_digits_fit(src@, k as int, p as int);
                }
                let meta = (self.make)(num, src[p]);
                self.pos = if le < len {
                    le + 1
                } else {
                    len
                };
                return Some((meta, Span::new(cs as u32, le as u32)));
            }
            self.pos = p + 1;
        }
    }

    /// The next item: the first of the remaining items (its metadata built
    /// by `make` from the number and the delimiter byte), which are then the
    /// rest; `None` once none remain.
    pub fn next(&mut self) -> (r: Option<(T, Span)>)
        ensures
            final(self)@ == old(self)@.at(final(self)@.pos),
            final(self).maker() == old(self).maker(),
            match old(self)@.step() {
                Some((it, np)) => r matches Some((meta, sp)) && sp == it.2 && call_ensures(
                    old(self).maker(),
                    (it.0, it.1),
                    meta,
                ) && final(self)@.pos == np,
                None => r is None && final(self)@.remaining() == Seq::<(u32, u8, Span)>::empty(),
            },
            old(self)@.remaining() == (match old(self)@.step() {
                Some((it, _)) => seq![it] + final(self)@.remaining(),
                None => Seq::<(u32, u8, Span)>::empty(),
            }),
    {
        proof {
            use_type_invariant(&*self);
            lemma_step_moves(self@);
        }
        if self.streaming {
            return self.next_streaming();
        }
        let ghost sc0 = self@;
        let src = self.src;
        let len = src.len();
        let eol = self.eol;
        let sep = self.sep;
        let tab = self.tab;
        loop
            invariant
                self@ == sc0.at(self@.pos),
                sc0 == old(self)@,
                !sc0.streaming,
                self.maker() == old(self).maker(),
                sc0.src == src@,
                len == src@.len() <= MAX_INPUT_LEN,
                eol == sc0.eol,
                sep == sc0.sep,
                tab == sc0.tab,
                0 <= self@.pos <= len,
                self@.step() == sc0.step(),
            decreases len - self@.pos,
        {
            proof {
                use_type_invariant(&*self);
            }
            if self.pos >= len {
                return None;
            }
            let le = find_line_end(src, self.pos, eol);
            proof {
                lemma_skip_blank(src@, self@.pos, le as int, sep, tab);
            }
            let mut p = self.pos;
            while p < le && (src[p] == sep || src[p] == tab)
                invariant
                    self@.pos <= p <= le <= len,
                    len == src@.len(),
                    skip_blank(src@, p as int, le as int, sep, tab) == skip_blank(
                        src@,
                        self@.pos,
                        le as int,
                        sep,
                        tab,
                    ),
                decreases le - p,
            {
                p += 1;
            }
            if p < le && digit(src[p]) {
                proof {
                    lemma_fwd_digits(src@, p as int, le as int, 9);
                }
                let mut i = p;
                let mut dc: u8 = 0;
                while i < le && digit(src[i]) && dc < 9
                    invariant
                        p <= i <= le <= len,
                        len == src@.len(),
                        dc <= 9,
                        i == p + dc,
                        fwd_digits(src@, i as int, le as int, 9 - dc) == fwd_digits(
                            src@,
                            p as int,
                            le as int,
                            9,
                        ),
                    decreases 9 - dc,
                {
                    i += 1;
                    dc += 1;
                }
                if dc > 0 && i < le && self.accept[src[i] as usize] {
                    let kind = src[i];
                    let nxt = i + 1;
                    if nxt < le && (src[nxt] == sep || src[nxt] == tab) {
                        let num = parse_digits(src, p, i);
                        let cs = nxt + 1;
                        proof {
                            use_type_invariant(&*self);
                            lemma_digits_fit(src@, p as int, i as int);
                        }
                        let meta = (self.make)(num, kind);
                        let span = Span::new(cs as u32, le as u32);
                        self.pos = if le < len {
                            le + 1
                        } else {
                            len
                        };
                        proof {
                            lemma_step_moves(sc0);
                        }
                        return Some((meta, span));
                    }
                }
            }
            self.pos = if le < len {
                le + 1
            } else {
                len
            };
        }
    }
}

/// A step of either rule, when it yields, moves strictly forward within the
/// source, so `remaining` unfolds by one item.
proof fn lemma_step_moves(sc: BlockNumberedScan)
    requires
        0 <= sc.pos <= sc.src.len(),
    ensures
        sc.step() matches Some((it, np)) ==> sc.pos < np <= sc.src.len(),
        sc.step() is None ==> sc.remaining() == Seq::<(u32, u8, Span)>::empty(),
    decreases sc.src.len() - sc.pos,
{
    let s = sc.src;
    let len = s.len() as int;
    if sc.streaming {
        lemma_findn(s, sc.pos, sc.needles);
        match findn(s, sc.pos, sc.needles) {
            None => {},
            Some(p) => {
                let k = back_digits(s, p, 9);
                let ls = back_blank(s, k, sc.sep, sc.tab);
                if k == p || (k > 0 && is_digit(s[k - 1])) {
                    lemma_step_moves(sc.at(p + 1));
                } else if ls > 0 && s[ls - 1] != sc.eol {
                    lemma_step_moves(sc.at(p + 1));
                } else if p + 1 < len && (s[p + 1] == sc.sep || s[p + 1] == sc.tab) {
                    lemma_find1(s, p + 2, sc.eol);
                } else {
                    lemma_step_moves(sc.at(p + 1));
                }
            },
        }
    } else if sc.pos < len {
        let le = line_end(s, sc.pos, sc.eol);
        lemma_find1(s, sc.pos, sc.eol);
        let p = skip_blank(s, sc.pos, le, sc.sep, sc.tab);
        let i = fwd_digits(s, p, le, 9);
        if !(p < le && is_digit(s[p]) && 0 <= i && i < le && sc.accept[s[i] as int] && i + 1 < le
            && (s[i + 1] == sc.sep || s[i + 1] == sc.tab)) {
            lemma_step_moves(sc.at(after_line(len, le)));
        }
    }
}

} // verus!
