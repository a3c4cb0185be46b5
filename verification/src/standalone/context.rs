//! [`ParseContext`]: the opaque-region map consumed by the context-aware
//! standalone iterators, and [`ContextCursor`], its monotone lookup cursor.
//!
//! A context is built by one streaming pass over the source: one search per
//! step for the union of the fence bytes and the opaque-rule triggers. A hit
//! that is a fence byte at a line start and opens a fence records the whole
//! fenced block (to its close line, or to the end of input). Any other hit
//! that triggers an opaque inline rule (a code span, a string, an autolink)
//! is matched paragraph-bounded and escape-aware, and a match records its
//! full extent, delimiters included. The scan resumes after each region, so
//! overlapping candidates resolve leftmost first. The regions come out
//! sorted and non-overlapping.
use vstd::prelude::*;
use vstd::slice::slice_subrange;
use crate::search::{
    find1, find2, findn, line_end, lemma_find1, lemma_find2, lemma_findn, find_byte, find_byte2,
};
use crate::span::{Span, MAX_INPUT_LEN};
use crate::swar::find_any;
use super::symmetric::run_of;
use super::common::{
    after_line, sat8, run_end, lemma_run_end, escaped, has_byte_in, blank_in, count_escape,
    find_line_end, scan_run, contains_byte, all_sep_tab,
};

verus! {

/// One opaque symmetric rule: `(delimiter byte, exact run count)`.
pub type SymSpec = (u8, u32);

/// One opaque asymmetric rule: `(open byte, close byte, exact open count)`.
pub type AsymSpec = (u8, u8, u32);

/// One fence rule: `(fence byte, minimum run length)`.
pub type FenceSpec = (u8, u8);

/// The most distinct needle bytes searched for: fence bytes and opaque
/// triggers together, deduplicated.
pub const MAX_NEEDLES: usize = 11;

/// The candidate needle bytes in rule order: every fence byte, then every
/// symmetric delimiter, then every asymmetric opener.
pub open spec fn candidates(fences: Seq<FenceSpec>, sym: Seq<SymSpec>, asym: Seq<AsymSpec>) -> Seq<u8> {
    fences.map_values(|f: FenceSpec| f.0) + sym.map_values(|x: SymSpec| x.0) + asym.map_values(
        |a: AsymSpec| a.0,
    )
}

/// One needle pushed onto `buf`, unless it is already there or `buf` is full.
pub open spec fn push_needle_spec(buf: Seq<u8>, b: u8) -> Seq<u8> {
    if buf.len() < MAX_NEEDLES && !buf.contains(b) {
        buf.push(b)
    } else {
        buf
    }
}

/// The candidates pushed onto `buf` in order.
pub open spec fn push_all(buf: Seq<u8>, cand: Seq<u8>) -> Seq<u8>
    decreases cand.len(),
{
    if cand.len() == 0 {
        buf
    } else {
        push_all(push_needle_spec(buf, cand[0]), cand.drop_first())
    }
}

/// The deduplicated needle set of a rule set: its candidates in order, each
/// kept the first time it appears, at most [`MAX_NEEDLES`] of them.
pub open spec fn needles_of(fences: Seq<FenceSpec>, sym: Seq<SymSpec>, asym: Seq<AsymSpec>) -> Seq<u8> {
    push_all(Seq::empty(), candidates(fences, sym, asym))
}

/// Some fence rule has byte `b`.
pub open spec fn is_fence(fences: Seq<FenceSpec>, b: u8) -> bool {
    exists|i: int| 0 <= i < fences.len() && #[trigger] fences[i].0 == b
}

/// The first fence rule at or after `from` with byte `b`.
pub open spec fn first_fence(fences: Seq<FenceSpec>, b: u8, from: int) -> Option<int>
    decreases fences.len() - from,
{
    if from < 0 || from >= fences.len() {
        None
    } else if fences[from].0 == b {
        Some(from)
    } else {
        first_fence(fences, b, from + 1)
    }
}

/// The first symmetric rule at or after `from` with delimiter `b`.
pub open spec fn first_sym(sym: Seq<SymSpec>, b: u8, from: int) -> Option<int>
    decreases sym.len() - from,
{
    if from < 0 || from >= sym.len() {
        None
    } else if sym[from].0 == b {
        Some(from)
    } else {
        first_sym(sym, b, from + 1)
    }
}

/// The first asymmetric rule at or after `from` with opener `b`.
pub open spec fn first_asym(asym: Seq<AsymSpec>, b: u8, from: int) -> Option<int>
    decreases asym.len() - from,
{
    if from < 0 || from >= asym.len() {
        None
    } else if asym[from].0 == b {
        Some(from)
    } else {
        first_asym(asym, b, from + 1)
    }
}

/// The opaque inline rule that trigger byte `b` belongs to, as
/// `(is_symmetric, index)`: the first symmetric rule with that delimiter,
/// else the first asymmetric rule with that opener.
pub open spec fn rule_of(sym: Seq<SymSpec>, asym: Seq<AsymSpec>, b: u8) -> Option<(bool, int)> {
    match first_sym(sym, b, 0) {
        Some(i) => Some((true, i)),
        None => match first_asym(asym, b, 0) {
            Some(i) => Some((false, i)),
            None => None,
        },
    }
}

/// The end of the run of `b` bytes from `p`, not past `le`.
pub open spec fn run_to(s: Seq<u8>, p: int, le: int, b: u8) -> int
    decreases le - p,
{
    if 0 <= p < le && p < s.len() && s[p] == b {
        run_to(s, p + 1, le, b)
    } else {
        p
    }
}

proof fn lemma_run_to(s: Seq<u8>, p: int, le: int, b: u8)
    requires
        0 <= p <= le <= s.len(),
    ensures
        p <= run_to(s, p, le, b) <= le,
        forall|i: int| p <= i < run_to(s, p, le, b) ==> s[i] == b,
        run_to(s, p, le, b) < le ==> s[run_to(s, p, le, b)] != b,
    decreases le - p,
{
    if p < le && s[p] == b {
        lemma_run_to(s, p + 1, le, b);
    }
}

/// Does a fence open on the line `[pos, le)`? Its byte is that of the first
/// fence rule for `s[pos]`; the run (counted by a saturating `u8`) must
/// reach the rule's minimum, and the rest of the line (the info string)
/// must not hold that byte. The result is the run count.
pub open spec fn fence_open_count(s: Seq<u8>, pos: int, le: int, fences: Seq<FenceSpec>) -> Option<u8> {
    if pos < 0 || pos >= le || pos >= s.len() {
        None
    } else {
        match first_fence(fences, s[pos], 0) {
            None => None,
            Some(fi) => {
                let fb = fences[fi].0;
                let i = run_to(s, pos, le, fb);
                let c = sat8(i - pos);
                if c >= fences[fi].1 && !has_byte_in(s, i, le, fb) {
                    Some(c as u8)
                } else {
                    None
                }
            },
        }
    }
}

/// Does the line `[pos, le)` close a fence of `byte` opened with
/// `open_count`: a run of at least that many (saturating count), then only
/// `sep`/`tab`?
pub open spec fn fence_closes_at(
    s: Seq<u8>,
    pos: int,
    le: int,
    byte: u8,
    open_count: u8,
    sep: u8,
    tab: u8,
) -> bool {
    let i = run_to(s, pos, le, byte);
    sat8(i - pos) >= open_count && blank_in(s, i, le, sep, tab)
}

/// The end of the line that closes a fence, searching lines that begin
/// with `byte` from `search`; the source length when none closes it.
pub open spec fn close_scan(
    s: Seq<u8>,
    search: int,
    byte: u8,
    open_count: u8,
    eol: u8,
    sep: u8,
    tab: u8,
) -> int
    decreases s.len() - search,
{
    let len = s.len() as int;
    if search < 0 {
        len
    } else {
        match find1(s, search, byte) {
            None => len,
            Some(q) => {
                proof {
                    lemma_find1(s, search, byte);
                    lemma_find1(s, q, eol);
                }
                if q > 0 && s[q - 1] != eol {
                    close_scan(s, q + 1, byte, open_count, eol, sep, tab)
                } else {
                    let cle = line_end(s, q, eol);
                    if fence_closes_at(s, q, cle, byte, open_count, sep, tab) {
                        cle
                    } else {
                        close_scan(s, after_line(len, cle), byte, open_count, eol, sep, tab)
                    }
                }
            },
        }
    }
}

/// Would the line starting at `ls` end a paragraph by opening a fence?
pub open spec fn opens_fence_line(s: Seq<u8>, ls: int, eol: u8, fences: Seq<FenceSpec>) -> bool {
    &&& 0 <= ls < s.len()
    &&& is_fence(fences, s[ls])
    &&& fence_open_count(s, ls, line_end(s, ls, eol), fences) is Some
}

/// The rule set and source a context is built from.
pub struct CtxRules {
    pub src: Seq<u8>,
    pub eol: u8,
    pub escape: u8,
    pub sep: u8,
    pub tab: u8,
    pub fences: Seq<FenceSpec>,
    pub sym: Seq<SymSpec>,
    pub asym: Seq<AsymSpec>,
}

/// An `eol` at `q` ends the paragraph: it is the last byte, or another
/// `eol` follows it, or the next line opens a fence.
pub open spec fn para_break(s: Seq<u8>, eol: u8, fences: Seq<FenceSpec>, q: int) -> bool {
    q + 1 >= s.len() || s[q + 1] == eol || opens_fence_line(s, q + 1, eol, fences)
}

/// The paragraph-bounded, escape-aware close of a symmetric rule (`byte` ×
/// `count`) searched from `j`: the end of the first unescaped run of
/// exactly `count` bytes, crossing single line breaks only.
pub open spec fn sym_close_from(
    s: Seq<u8>,
    eol: u8,
    escape: u8,
    fences: Seq<FenceSpec>,
    j: int,
    byte: u8,
    count: u32,
) -> Option<int>
    decreases s.len() - j,
{
    if j < 0 {
        None
    } else {
        match find2(s, j, byte, eol) {
            None => None,
            Some(q) => {
                proof {
                    lemma_find2(s, j, byte, eol);
                    lemma_run_end(s, q, byte);
                }
                if s[q] == eol {
                    if para_break(s, eol, fences, q) {
                        None
                    } else {
                        sym_close_from(s, eol, escape, fences, q + 1, byte, count)
                    }
                } else if escaped(s, q, escape) {
                    sym_close_from(s, eol, escape, fences, q + 1, byte, count)
                } else if run_end(s, q, byte) - q == count {
                    Some(run_end(s, q, byte))
                } else {
                    sym_close_from(s, eol, escape, fences, run_end(s, q, byte), byte, count)
                }
            },
        }
    }
}

/// The paragraph-bounded, escape-aware close of an asymmetric rule searched
/// from `j`: the first unescaped `close` byte, crossing single line breaks
/// only.
pub open spec fn asym_close_from(
    s: Seq<u8>,
    eol: u8,
    escape: u8,
    fences: Seq<FenceSpec>,
    j: int,
    close: u8,
) -> Option<int>
    decreases s.len() - j,
{
    if j < 0 {
        None
    } else {
        match find2(s, j, close, eol) {
            None => None,
            Some(q) => {
                proof {
                    lemma_find2(s, j, close, eol);
                }
                if s[q] == eol {
                    if para_break(s, eol, fences, q) {
                        None
                    } else {
                        asym_close_from(s, eol, escape, fences, q + 1, close)
                    }
                } else if escaped(s, q, escape) {
                    asym_close_from(s, eol, escape, fences, q + 1, close)
                } else {
                    Some(q)
                }
            },
        }
    }
}

impl CtxRules {
    /// The symmetric close of `byte` × `count` from `j` in this source.
    pub open spec fn sym_close(self, j: int, byte: u8, count: u32) -> Option<int> {
        sym_close_from(self.src, self.eol, self.escape, self.fences, j, byte, count)
    }

    /// The asymmetric close on `close` from `j` in this source.
    pub open spec fn asym_close(self, j: int, close: u8) -> Option<int> {
        asym_close_from(self.src, self.eol, self.escape, self.fences, j, close)
    }

    /// The needle set searched for.
    pub open spec fn needles(self) -> Seq<u8> {
        needles_of(self.fences, self.sym, self.asym)
    }

    /// The fenced block opened at the line start `p`, if one opens there:
    /// its end (the close line's end, or the source length).
    pub open spec fn fence_at(self, p: int) -> Option<int> {
        let s = self.src;
        if 0 <= p < s.len() && is_fence(self.fences, s[p]) && (p == 0 || s[p - 1] == self.eol) {
            let le = line_end(s, p, self.eol);
            match fence_open_count(s, p, le, self.fences) {
                Some(oc) => Some(
                    close_scan(
                        s,
                        after_line(s.len() as int, le),
                        s[p],
                        oc,
                        self.eol,
                        self.sep,
                        self.tab,
                    ),
                ),
                None => None,
            }
        } else {
            None
        }
    }

    /// For each of `spans`, whether a fenced block opens at its start.
    pub open spec fn fence_flags(self, spans: Seq<Span>) -> Seq<bool> {
        Seq::new(spans.len(), |i: int| self.fence_at(spans[i].start as int) is Some)
    }

    /// The opaque regions from `pos` on: at each needle hit, a fence that
    /// opens there, else the opaque inline rule that the byte triggers (an
    /// unescaped opening run of exactly its count, then its close).
    pub open spec fn regions_from(self, pos: int) -> Seq<Span>
        decreases self.src.len() - pos,
    {
        let s = self.src;
        let len = s.len() as int;
        if pos < 0 || pos >= len {
            Seq::empty()
        } else {
            match findn(s, pos, self.needles()) {
                None => Seq::empty(),
                Some(p) => {
                    proof {
                        lemma_findn(s, pos, self.needles());
                        lemma_fence_at(self, p);
                    }
                    match self.fence_at(p) {
                        Some(end) => seq![Span::mk(p, end)] + self.regions_from(after_line(len, end)),
                        None => match rule_of(self.sym, self.asym, s[p]) {
                            None => self.regions_from(p + 1),
                            Some((is_sym, ri)) => {
                                if escaped(s, p, self.escape) {
                                    self.regions_from(p + 1)
                                } else if is_sym {
                                    let byte = self.sym[ri].0;
                                    let count = self.sym[ri].1;
                                    let re = run_end(s, p, byte);
                                    proof {
                                        lemma_run_end(s, p, byte);
                                        lemma_rule_of(self.sym, self.asym, s[p]);
                                        lemma_sym_close(self, re, byte, count);
                                    }
                                    if re - p != count {
                                        self.regions_from(re)
                                    } else {
                                        match self.sym_close(re, byte, count) {
                                            Some(ce) => seq![Span::mk(p, ce)] + self.regions_from(ce),
                                            None => self.regions_from(re),
                                        }
                                    }
                                } else {
                                    let open = self.asym[ri].0;
                                    let re = run_end(s, p, open);
                                    proof {
                                        lemma_run_end(s, p, open);
                                        lemma_rule_of(self.sym, self.asym, s[p]);
                                        lemma_asym_close(self, re, self.asym[ri].1);
                                    }
                                    if re - p != self.asym[ri].2 {
                                        self.regions_from(re)
                                    } else {
                                        match self.asym_close(re, self.asym[ri].1) {
                                            Some(cp) => seq![Span::mk(p, cp + 1)]
                                                + self.regions_from(cp + 1),
                                            None => self.regions_from(re),
                                        }
                                    }
                                }
                            },
                        },
                    }
                },
            }
        }
    }
}

/// `rule_of` names a rule whose trigger is `b`.
pub proof fn lemma_rule_of(sym: Seq<SymSpec>, asym: Seq<AsymSpec>, b: u8)
    ensures
        rule_of(sym, asym, b) matches Some((is_sym, i)) ==> if is_sym {
            0 <= i < sym.len() && sym[i].0 == b
        } else {
            0 <= i < asym.len() && asym[i].0 == b
        },
{
    lemma_first_sym(sym, b, 0);
    lemma_first_asym(asym, b, 0);
}

proof fn lemma_first_sym(sym: Seq<SymSpec>, b: u8, from: int)
    requires
        0 <= from,
    ensures
        first_sym(sym, b, from) matches Some(i) ==> from <= i < sym.len() && sym[i].0 == b,
    decreases sym.len() - from,
{
    if from < sym.len() && sym[from].0 != b {
        lemma_first_sym(sym, b, from + 1);
    }
}

proof fn lemma_first_asym(asym: Seq<AsymSpec>, b: u8, from: int)
    requires
        0 <= from,
    ensures
        first_asym(asym, b, from) matches Some(i) ==> from <= i < asym.len() && asym[i].0 == b,
    decreases asym.len() - from,
{
    if from < asym.len() && asym[from].0 != b {
        lemma_first_asym(asym, b, from + 1);
    }
}

/// A fence close scan from `search` ends within the source, at or after
/// `search`.
proof fn lemma_close_scan(
    s: Seq<u8>,
    search: int,
    byte: u8,
    open_count: u8,
    eol: u8,
    sep: u8,
    tab: u8,
)
    requires
        0 <= search <= s.len(),
    ensures
        search <= close_scan(s, search, byte, open_count, eol, sep, tab) <= s.len(),
    decreases s.len() - search,
{
    let len = s.len() as int;
    lemma_find1(s, search, byte);
    match find1(s, search, byte) {
        None => {},
        Some(q) => {
            lemma_find1(s, q, eol);
            if q > 0 && s[q - 1] != eol {
                lemma_close_scan(s, q + 1, byte, open_count, eol, sep, tab);
            } else {
                let cle = line_end(s, q, eol);
                if !fence_closes_at(s, q, cle, byte, open_count, sep, tab) {
                    lemma_close_scan(s, after_line(len, cle), byte, open_count, eol, sep, tab);
                }
            }
        },
    }
}

/// A fenced block opened at `p` ends after `p`, within the source.
pub proof fn lemma_fence_at(r: CtxRules, p: int)
    ensures
        r.fence_at(p) matches Some(end) ==> p < end <= r.src.len(),
{
    let s = r.src;
    if 0 <= p < s.len() {
        lemma_find1(s, p, r.eol);
        let le = line_end(s, p, r.eol);
        match fence_open_count(s, p, le, r.fences) {
            Some(oc) => {
                lemma_close_scan(s, after_line(s.len() as int, le), s[p], oc, r.eol, r.sep, r.tab);
            },
            None => {},
        }
    }
}

/// A symmetric close lies after the search start, within the source.
pub proof fn lemma_sym_close(r: CtxRules, j: int, byte: u8, count: u32)
    requires
        0 <= j,
    ensures
        r.sym_close(j, byte, count) matches Some(ce) ==> j < ce <= r.src.len(),
        r.sym_close(j, byte, count) matches Some(ce) ==> j <= ce - count && run_of(
            r.src,
            byte,
            ce - count,
            count as int,
        ) && !escaped(r.src, ce - count, r.escape),
    decreases r.src.len() - j,
{
    let s = r.src;
    lemma_find2(s, j, byte, r.eol);
    match find2(s, j, byte, r.eol) {
        None => {},
        Some(q) => {
            lemma_run_end(s, q, byte);
            if s[q] == r.eol {
                if !para_break(s, r.eol, r.fences, q) {
                    lemma_sym_close(r, q + 1, byte, count);
                }
            } else if escaped(s, q, r.escape) {
                lemma_sym_close(r, q + 1, byte, count);
            } else if run_end(s, q, byte) - q != count {
                lemma_sym_close(r, run_end(s, q, byte), byte, count);
            }
        },
    }
}

/// An asymmetric close lies at or after the search start, within the
/// source, on a `close` byte.
pub proof fn lemma_asym_close(r: CtxRules, j: int, close: u8)
    requires
        0 <= j,
    ensures
        r.asym_close(j, close) matches Some(cp) ==> j <= cp < r.src.len() && r.src[cp] == close
            && !escaped(r.src, cp, r.escape),
    decreases r.src.len() - j,
{
    let s = r.src;
    lemma_find2(s, j, close, r.eol);
    match find2(s, j, close, r.eol) {
        None => {},
        Some(q) => {
            if s[q] == r.eol {
                if !para_break(s, r.eol, r.fences, q) {
                    lemma_asym_close(r, q + 1, close);
                }
            } else if escaped(s, q, r.escape) {
                lemma_asym_close(r, q + 1, close);
            }
        },
    }
}


/// Push `b` onto the first `n` needles of `buf`, unless it is already among
/// them or they fill the buffer; the new count.
fn push_needle(buf: &mut [u8; MAX_NEEDLES], n: usize, b: u8) -> (n2: usize)
    requires
        n <= MAX_NEEDLES,
    ensures
        n2 <= MAX_NEEDLES,
        final(buf)@.take(n2 as int) == push_needle_spec(old(buf)@.take(n as int), b),
{
    let ghost cur = buf@.take(n as int);
    if n >= MAX_NEEDLES {
        return n;
    }
    let mut k: usize = 0;
    while k < n
        invariant
            k <= n < MAX_NEEDLES,
            cur == buf@.take(n as int),
            forall|i: int| 0 <= i < k ==> cur[i] != b,
        decreases n - k,
    {
        if buf[k] == b {
            proof {
                assert(cur[k as int] == b);
            }
            return n;
        }
        k += 1;
    }
    buf[n] = b;
    proof {
        assert(buf@.take(n + 1) =~= cur.push(b));
    }
    n + 1
}

/// Every fence byte, symmetric delimiter and asymmetric opener, each kept
/// the first time it appears, written into `buf` (at most [`MAX_NEEDLES`];
/// any further byte is dropped, so its rule simply never matches). The
/// count written.
fn build_needles(
    fences: &[FenceSpec],
    sym: &[SymSpec],
    asym: &[AsymSpec],
    buf: &mut [u8; MAX_NEEDLES],
) -> (n: usize)
    ensures
        n <= MAX_NEEDLES,
        final(buf)@.take(n as int) == needles_of(fences@, sym@, asym@),
{
    let ghost cand = candidates(fences@, sym@, asym@);
    let ghost total = cand.len() as int;
    let ghost fl = fences@.len() as int;
    let ghost sl = sym@.len() as int;
    proof {
        assert(buf@.take(0) =~= Seq::<u8>::empty());
        assert(cand.subrange(0, total) =~= cand);
    }
    let mut n: usize = 0;
    let mut k: usize = 0;
    while k < fences.len()
        invariant
            k <= fences@.len() == fl,
            n <= MAX_NEEDLES,
            cand == candidates(fences@, sym@, asym@),
            total == cand.len(),
            push_all(buf@.take(n as int), cand.subrange(k as int, total)) == needles_of(
                fences@,
                sym@,
                asym@,
            ),
        decreases fences@.len() - k,
    {
        proof {
            assert(cand[k as int] == fences@[k as int].0);
            assert(cand.subrange(k as int, total).drop_first() =~= cand.subrange(k + 1, total));
        }
        n = push_needle(buf, n, fences[k].0);
        k += 1;
    }
    let mut k: usize = 0;
    while k < sym.len()
        invariant
            k <= sym@.len() == sl,
            fl == fences@.len(),
            n <= MAX_NEEDLES,
            cand == candidates(fences@, sym@, asym@),
            total == cand.len(),
            push_all(buf@.take(n as int), cand.subrange(fl + k, total)) == needles_of(
                fences@,
                sym@,
                asym@,
            ),
        decreases sym@.len() - k,
    {
        proof {
            assert(cand[fl + k] == sym@[k as int].0);
            assert(cand.subrange(fl + k, total).drop_first() =~= cand.subrange(fl + k + 1, total));
        }
        n = push_needle(buf, n, sym[k].0);
        k += 1;
    }
    let mut k: usize = 0;
    while k < asym.len()
        invariant
            k <= asym@.len(),
            fl == fences@.len(),
            sl == sym@.len(),
            n <= MAX_NEEDLES,
            cand == candidates(fences@, sym@, asym@),
            total == cand.len(),
            total == fl + sl + asym@.len(),
            push_all(buf@.take(n as int), cand.subrange(fl + sl + k, total)) == needles_of(
                fences@,
                sym@,
                asym@,
            ),
        decreases asym@.len() - k,
    {
        proof {
            assert(cand[fl + sl + k] == asym@[k as int].0);
            assert(cand.subrange(fl + sl + k, total).drop_first() =~= cand.subrange(
                fl + sl + k + 1,
                total,
            ));
        }
        n = push_needle(buf, n, asym[k].0);
        k += 1;
    }
    proof {
        assert(cand.subrange(total, total) =~= Seq::<u8>::empty());
    }
    n
}

/// `findn` over a suffix of `s` is `findn` over `s`, shifted.
proof fn lemma_findn_suffix(s: Seq<u8>, a: int, j: int, ns: Seq<u8>)
    requires
        0 <= a <= j <= s.len(),
    ensures
        findn(s.subrange(a, s.len() as int), j - a, ns) == (match findn(s, j, ns) {
            Some(i) => Some(i - a),
            None => None::<int>,
        }),
    decreases s.len() - j,
{
    if j < s.len() {
        assert(s.subrange(a, s.len() as int)[j - a] == s[j]);
        if !ns.contains(s[j]) {
            lemma_findn_suffix(s, a, j + 1, ns);
        }
    }
}

/// One search over `hay` for any of the `needles` (at most
/// [`MAX_NEEDLES`]): the `memchr` family for up to three, the SWAR scan
/// beyond.
fn find_needle(needles: &[u8], hay: &[u8]) -> (r: Option<usize>)
    requires
        needles@.len() <= MAX_NEEDLES,
    ensures
        r == (match findn(hay@, 0, needles@) {
            Some(i) => Some(i as usize),
            None => None::<usize>,
        }),
{
    let n = needles;
    let ghost ns = needles@;
    let k = n.len();
    if k == 0 {
        proof {
            lemma_findn(hay@, 0, ns);
            if findn(hay@, 0, ns) is Some {
                assert(false);
            }
        }
        None
    } else if k == 1 {
        let r = find_any([n[0]], hay);
        proof {
            assert([n[0]]@ =~= ns);
        }
        r
    } else if k == 2 {
        let r = find_any([n[0], n[1]], hay);
        proof {
            assert([n[0], n[1]]@ =~= ns);
        }
        r
    } else if k == 3 {
        let r = find_any([n[0], n[1], n[2]], hay);
        proof {
            assert([n[0], n[1], n[2]]@ =~= ns);
        }
        r
    } else if k == 4 {
        let r = find_any([n[0], n[1], n[2], n[3]], hay);
        proof {
            assert([n[0], n[1], n[2], n[3]]@ =~= ns);
        }
        r
    } else if k == 5 {
        let r = find_any([n[0], n[1], n[2], n[3], n[4]], hay);
        proof {
            assert([n[0], n[1], n[2], n[3], n[4]]@ =~= ns);
        }
        r
    } else if k == 6 {
        let r = find_any([n[0], n[1], n[2], n[3], n[4], n[5]], hay);
        proof {
            assert([n[0], n[1], n[2], n[3], n[4], n[5]]@ =~= ns);
        }
        r
    } else if k == 7 {
        let r = find_any([n[0], n[1], n[2], n[3], n[4], n[5], n[6]], hay);
        proof {
            assert([n[0], n[1], n[2], n[3], n[4], n[5], n[6]]@ =~= ns);
        }
        r
    } else if k == 8 {
        let r = find_any([n[0], n[1], n[2], n[3], n[4], n[5], n[6], n[7]], hay);
        proof {
            assert([n[0], n[1], n[2], n[3], n[4], n[5], n[6], n[7]]@ =~= ns);
        }
        r
    } else if k == 9 {
        let r = find_any([n[0], n[1], n[2], n[3], n[4], n[5], n[6], n[7], n[8]], hay);
        proof {
            assert([n[0], n[1], n[2], n[3], n[4], n[5], n[6], n[7], n[8]]@ =~= ns);
        }
        r
    } else if k == 10 {
        let r = find_any([n[0], n[1], n[2], n[3], n[4], n[5], n[6], n[7], n[8], n[9]], hay);
        proof {
            assert([n[0], n[1], n[2], n[3], n[4], n[5], n[6], n[7], n[8], n[9]]@ =~= ns);
        }
        r
    } else {
        let r = find_any([n[0], n[1], n[2], n[3], n[4], n[5], n[6], n[7], n[8], n[9], n[10]], hay);
        proof {
            assert([n[0], n[1], n[2], n[3], n[4], n[5], n[6], n[7], n[8], n[9], n[10]]@ =~= ns);
        }
        r
    }
}

/// Is `b` one of the fence bytes?
fn is_fence_byte(b: u8, fences: &[FenceSpec]) -> (r: bool)
    ensures
        r == is_fence(fences@, b),
{
    let mut i: usize = 0;
    while i < fences.len()
        invariant
            i <= fences@.len(),
            forall|k: int| 0 <= k < i ==> #[trigger] fences@[k].0 != b,
        decreases fences@.len() - i,
    {
        if fences[i].0 == b {
            proof {
                assert(fences@[i as int].0 == b);
            }
            return true;
        }
        i += 1;
    }
    false
}

/// The opaque inline rule owning trigger byte `b`, as `(is_symmetric,
/// index)`: the first symmetric rule with that delimiter, else the first
/// asymmetric rule with that opener.
fn rule_for(b: u8, sym: &[SymSpec], asym: &[AsymSpec]) -> (r: Option<(bool, usize)>)
    ensures
        r == (match rule_of(sym@, asym@, b) {
            Some((is_sym, i)) => Some((is_sym, i as usize)),
            None => None::<(bool, usize)>,
        }),
{
    let mut ri: usize = 0;
    while ri < sym.len()
        invariant
            ri <= sym@.len(),
            first_sym(sym@, b, 0) == first_sym(sym@, b, ri as int),
        decreases sym@.len() - ri,
    {
        if sym[ri].0 == b {
            return Some((true, ri));
        }
        ri += 1;
    }
    let mut ri: usize = 0;
    while ri < asym.len()
        invariant
            ri <= asym@.len(),
            first_sym(sym@, b, 0) is None,
            first_asym(asym@, b, 0) == first_asym(asym@, b, ri as int),
        decreases asym@.len() - ri,
    {
        if asym[ri].0 == b {
            return Some((false, ri));
        }
        ri += 1;
    }
    None
}

/// The end of the run of `b` from `p`, not past `le`, and its length as a
/// saturating `u8` count.
fn run_to_sat(src: &[u8], p: usize, le: usize, b: u8) -> (r: (usize, u8))
    requires
        p <= le <= src@.len(),
    ensures
        r.0 == run_to(src@, p as int, le as int, b),
        p <= r.0 <= le,
        r.1 == sat8(r.0 - p),
{
    proof {
        lemma_run_to(src@, p as int, le as int, b);
    }
    let mut i = p;
    let mut c: u8 = 0;
    while i < le && src[i] == b
        invariant
            p <= i <= le <= src@.len(),
            c == sat8(i - p),
            run_to(src@, i as int, le as int, b) == run_to(src@, p as int, le as int, b),
        decreases le - i,
    {
        c = c.saturating_add(1);
        i += 1;
    }
    (i, c)
}

/// Does a fence open at `pos` on the line `[pos, line_end)`? Its run
/// count: at least the rule's minimum, with no further fence byte on the
/// info line.
fn fence_opens(src: &[u8], pos: usize, line_end: usize, fences: &[FenceSpec]) -> (r: Option<u8>)
    requires
        pos <= line_end <= src@.len(),
    ensures
        r == fence_open_count(src@, pos as int, line_end as int, fences@),
{
    if pos >= line_end {
        return None;
    }
    let b = src[pos];
    let mut fi: usize = 0;
    while fi < fences.len()
        invariant
            fi <= fences@.len(),
            pos < line_end <= src@.len(),
            b == src@[pos as int],
            first_fence(fences@, b, 0) == first_fence(fences@, b, fi as int),
        decreases fences@.len() - fi,
    {
        let (fb, fmin) = fences[fi];
        if b == fb {
            let (i, c) = run_to_sat(src, pos, line_end, fb);
            if c >= fmin && !contains_byte(src, i, line_end, fb) {
                return Some(c);
            }
            return None;
        }
        fi += 1;
    }
    None
}

/// Does the line `[pos, line_end)` close a fence of `byte` opened with
/// `open_count`: a run of at least that many, then only `sep`/`tab`?
fn fence_closes(
    src: &[u8],
    pos: usize,
    line_end: usize,
    byte: u8,
    open_count: u8,
    sep: u8,
    tab: u8,
) -> (r: bool)
    requires
        pos <= line_end <= src@.len(),
    ensures
        r == fence_closes_at(src@, pos as int, line_end as int, byte, open_count, sep, tab),
{
    let (i, c) = run_to_sat(src, pos, line_end, byte);
    c >= open_count && all_sep_tab(src, i, line_end, sep, tab)
}

/// Streaming search for a fence's closing line: search for the fence byte,
/// check it begins its line, then check the close condition. The close
/// line's end, or `len` for an unclosed fence.
fn fence_close_scan(
    src: &[u8],
    open_line_end: usize,
    len: usize,
    byte: u8,
    open_count: u8,
    eol: u8,
    sep: u8,
    tab: u8,
) -> (r: usize)
    requires
        open_line_end <= len == src@.len(),
    ensures
        r == close_scan(
            src@,
            after_line(len as int, open_line_end as int),
            byte,
            open_count,
            eol,
            sep,
            tab,
        ),
{
    let mut search = if open_line_end < len {
        open_line_end + 1
    } else {
        len
    };
    let ghost target = close_scan(
        src@,
        after_line(len as int, open_line_end as int),
        byte,
        open_count,
        eol,
        sep,
        tab,
    );
    loop
        invariant
            search <= len == src@.len(),
            close_scan(src@, search as int, byte, open_count, eol, sep, tab) == target,
            target == close_scan(
                src@,
                after_line(len as int, open_line_end as int),
                byte,
                open_count,
                eol,
                sep,
                tab,
            ),
        decreases len - search,
    {
        proof {
            lemma_find1(src@, search as int, byte);
        }
        let q = match find_byte(src, search, byte) {
            Some(q) => q,
            None => {
                return len;
            },
        };
        if q > 0 && src[q - 1] != eol {
            search = q + 1;
            continue;
        }
        let cle = find_line_end(src, q, eol);
        if fence_closes(src, q, cle, byte, open_count, sep, tab) {
            return cle;
        }
        search = if cle < len {
            cle + 1
        } else {
            len
        };
    }
}

/// Would the line starting at `ls` end a paragraph by opening a fence?
fn fence_opens_line(src: &[u8], ls: usize, eol: u8, fences: &[FenceSpec]) -> (r: bool)
    requires
        ls < src@.len(),
    ensures
        r == opens_fence_line(src@, ls as int, eol, fences@),
{
    if !is_fence_byte(src[ls], fences) {
        return false;
    }
    let le = find_line_end(src, ls, eol);
    fence_opens(src, ls, le, fences).is_some()
}

/// Escape-aware, paragraph-bounded symmetric close search from `from`: the
/// end of the first unescaped run of exactly `count` bytes. A single `eol`
/// is crossed; an empty line, a fence-opening line or the end of input
/// aborts.
fn sym_close(
    src: &[u8],
    from: usize,
    len: usize,
    byte: u8,
    count: u32,
    escape: u8,
    eol: u8,
    fences: &[FenceSpec],
) -> (r: Option<usize>)
    requires
        from <= len == src@.len() <= MAX_INPUT_LEN,
    ensures
        r == (match sym_close_from(src@, eol, escape, fences@, from as int, byte, count) {
            Some(e) => Some(e as usize),
            None => None::<usize>,
        }),
{
    let ghost target = sym_close_from(src@, eol, escape, fences@, from as int, byte, count);
    let mut j = from;
    loop
        invariant
            j <= len == src@.len() <= MAX_INPUT_LEN,
            sym_close_from(src@, eol, escape, fences@, j as int, byte, count) == target,
            target == sym_close_from(src@, eol, escape, fences@, from as int, byte, count),
        decreases len - j,
    {
        proof {
            lemma_find2(src@, j as int, byte, eol);
        }
        let q = match find_byte2(src, j, byte, eol) {
            Some(q) => q,
            None => {
                return None;
            },
        };
        proof {
            lemma_run_end(src@, q as int, byte);
        }
        if src[q] == eol {
            if q + 1 >= len || src[q + 1] == eol || fence_opens_line(src, q + 1, eol, fences) {
                return None;
            }
            j = q + 1;
            continue;
        }
        if count_escape(src, q, escape) % 2 == 1 {
            j = q + 1;
            continue;
        }
        let (tmp, cc) = scan_run(src, q, byte);
        if cc == count {
            return Some(tmp);
        }
        j = tmp;
    }
}

/// Escape-aware, paragraph-bounded asymmetric close search from `from`:
/// the first unescaped `close` byte, with the same crossing and abort rules
/// as [`sym_close`].
fn asym_close(
    src: &[u8],
    from: usize,
    len: usize,
    close: u8,
    escape: u8,
    eol: u8,
    fences: &[FenceSpec],
) -> (r: Option<usize>)
    requires
        from <= len == src@.len() <= MAX_INPUT_LEN,
    ensures
        r == (match asym_close_from(src@, eol, escape, fences@, from as int, close) {
            Some(e) => Some(e as usize),
            None => None::<usize>,
        }),
{
    let ghost target = asym_close_from(src@, eol, escape, fences@, from as int, close);
    let mut j = from;
    loop
        invariant
            j <= len == src@.len() <= MAX_INPUT_LEN,
            asym_close_from(src@, eol, escape, fences@, j as int, close) == target,
            target == asym_close_from(src@, eol, escape, fences@, from as int, close),
        decreases len - j,
    {
        proof {
            lemma_find2(src@, j as int, close, eol);
        }
        let q = match find_byte2(src, j, close, eol) {
            Some(q) => q,
            None => {
                return None;
            },
        };
        if src[q] == eol {
            if q + 1 >= len || src[q + 1] == eol || fence_opens_line(src, q + 1, eol, fences) {
                return None;
            }
            j = q + 1;
            continue;
        }
        if count_escape(src, q, escape) % 2 == 1 {
            j = q + 1;
            continue;
        }
        return Some(q);
    }
}


/// Spans each ending no later than the next begins, each non-empty-or-empty
/// (`start <= end`): sorted by `start` and non-overlapping.
pub open spec fn sorted_disjoint(spans: Seq<Span>) -> bool {
    &&& forall|i: int| 0 <= i < spans.len() ==> #[trigger] spans[i].start <= spans[i].end
    &&& forall|i: int, j: int|
        0 <= i < j < spans.len() ==> #[trigger] spans[i].end <= #[trigger] spans[j].start
}

/// The regions from `pos` on are non-empty, within the source, at or after
/// `pos`, sorted and non-overlapping.
pub proof fn lemma_regions_from(r: CtxRules, pos: int)
    requires
        0 <= pos,
        r.src.len() <= u32::MAX,
    ensures
        sorted_disjoint(r.regions_from(pos)),
        forall|i: int|
            0 <= i < r.regions_from(pos).len() ==> pos <= #[trigger] r.regions_from(pos)[i].start
                < r.regions_from(pos)[i].end <= r.src.len(),
    decreases r.src.len() - pos,
{
    let s = r.src;
    let len = s.len() as int;
    if pos < len {
        lemma_findn(s, pos, r.needles());
        match findn(s, pos, r.needles()) {
            None => {},
            Some(p) => {
                lemma_fence_at(r, p);
                match r.fence_at(p) {
                    Some(end) => {
                        lemma_regions_from(r, after_line(len, end));
                        lemma_prepend(Span::mk(p, end), r.regions_from(after_line(len, end)), pos, end);
                    },
                    None => {
                        lemma_rule_of(r.sym, r.asym, s[p]);
                        match rule_of(r.sym, r.asym, s[p]) {
                            None => lemma_regions_from(r, p + 1),
                            Some((is_sym, ri)) => {
                                if escaped(s, p, r.escape) {
                                    lemma_regions_from(r, p + 1);
                                } else if is_sym {
                                    let byte = r.sym[ri].0;
                                    let count = r.sym[ri].1;
                                    lemma_run_end(s, p, byte);
                                    let re = run_end(s, p, byte);
                                    lemma_sym_close(r, re, byte, count);
                                    if re - p != count {
                                        lemma_regions_from(r, re);
                                    } else {
                                        match r.sym_close(re, byte, count) {
                                            Some(ce) => {
                                                lemma_regions_from(r, ce);
                                                lemma_prepend(Span::mk(p, ce), r.regions_from(ce), pos, ce);
                                            },
                                            None => lemma_regions_from(r, re),
                                        }
                                    }
                                } else {
                                    let open = r.asym[ri].0;
                                    lemma_run_end(s, p, open);
                                    let re = run_end(s, p, open);
                                    lemma_asym_close(r, re, r.asym[ri].1);
                                    if re - p != r.asym[ri].2 {
                                        lemma_regions_from(r, re);
                                    } else {
                                        match r.asym_close(re, r.asym[ri].1) {
                                            Some(cp) => {
                                                lemma_regions_from(r, cp + 1);
                                                lemma_prepend(
                                                    Span::mk(p, cp + 1),
                                                    r.regions_from(cp + 1),
                                                    pos,
                                                    cp + 1,
                                                );
                                            },
                                            None => lemma_regions_from(r, re),
                                        }
                                    }
                                }
                            },
                        }
                    },
                }
            },
        }
    }
}

/// What a region is. A fenced block starts at a line start where a fence
/// opens ([`opens_fence_line`]). An inline region starts at an unescaped run
/// of exactly the count of the rule its first byte triggers, and ends with
/// that rule's close: for a symmetric rule an unescaped whole run of exactly
/// that many delimiters, for an asymmetric one an unescaped close byte.
pub open spec fn region_ok(r: CtxRules, sp: Span, fenced: bool) -> bool {
    let s = r.src;
    let a = sp.start as int;
    let e = sp.end as int;
    &&& 0 <= a < e <= s.len()
    &&& if fenced {
        (a == 0 || s[a - 1] == r.eol) && opens_fence_line(s, a, r.eol, r.fences)
    } else {
        match rule_of(r.sym, r.asym, s[a]) {
            Some((true, k)) => {
                let b = r.sym[k].0;
                let c = r.sym[k].1 as int;
                &&& run_of(s, b, a, c)
                &&& !escaped(s, a, r.escape)
                &&& a + c <= e - c
                &&& run_of(s, b, e - c, c)
                &&& !escaped(s, e - c, r.escape)
            },
            Some((false, k)) => {
                let o = r.asym[k].0;
                let cl = r.asym[k].1;
                let c = r.asym[k].2 as int;
                &&& run_of(s, o, a, c)
                &&& !escaped(s, a, r.escape)
                &&& a + c < e
                &&& s[e - 1] == cl
                &&& !escaped(s, e - 1, r.escape)
            },
            None => false,
        }
    }
}

/// Every region from `pos` on is a fenced block or an inline region as
/// [`region_ok`] says, by whether a fence opens at its start (the mark that
/// [`ParseContext::build`] records).
pub proof fn lemma_regions_ok(r: CtxRules, pos: int)
    requires
        0 <= pos,
        r.src.len() <= u32::MAX,
    ensures
        forall|i: int|
            0 <= i < r.regions_from(pos).len() ==> region_ok(
                r,
                #[trigger] r.regions_from(pos)[i],
                r.fence_at(r.regions_from(pos)[i].start as int) is Some,
            ),
    decreases r.src.len() - pos,
{
    let s = r.src;
    let len = s.len() as int;
    if pos < len {
        lemma_findn(s, pos, r.needles());
        match findn(s, pos, r.needles()) {
            None => {},
            Some(p) => {
                lemma_fence_at(r, p);
                match r.fence_at(p) {
                    Some(end) => {
                        lemma_regions_ok(r, after_line(len, end));
                        lemma_find1(s, p, r.eol);
                        let rest = r.regions_from(after_line(len, end));
                        let all = r.regions_from(pos);
                        assert(all == seq![Span::mk(p, end)] + rest);
                        assert forall|i: int| 0 <= i < all.len() implies region_ok(
                            r,
                            #[trigger] all[i],
                            r.fence_at(all[i].start as int) is Some,
                        ) by {
                            if i > 0 {
                                assert(all[i] == rest[i - 1]);
                            }
                        }
                    },
                    None => {
                        lemma_rule_of(r.sym, r.asym, s[p]);
                        match rule_of(r.sym, r.asym, s[p]) {
                            None => lemma_regions_ok(r, p + 1),
                            Some((is_sym, ri)) => {
                                if escaped(s, p, r.escape) {
                                    lemma_regions_ok(r, p + 1);
                                } else if is_sym {
                                    let byte = r.sym[ri].0;
                                    let count = r.sym[ri].1;
                                    lemma_run_end(s, p, byte);
                                    let re = run_end(s, p, byte);
                                    lemma_sym_close(r, re, byte, count);
                                    if re - p != count {
                                        lemma_regions_ok(r, re);
                                    } else {
                                        match r.sym_close(re, byte, count) {
                                            Some(ce) => {
                                                lemma_regions_ok(r, ce);
                                                let rest = r.regions_from(ce);
                                                let all = r.regions_from(pos);
                                                assert(all == seq![Span::mk(p, ce)] + rest);
                                                assert(run_of(s, byte, p, count as int));
                                                assert forall|i: int| 0 <= i < all.len() implies region_ok(
                                                    r,
                                                    #[trigger] all[i],
                                                    r.fence_at(all[i].start as int) is Some,
                                                ) by {
                                                    if i > 0 {
                                                        assert(all[i] == rest[i - 1]);
                                                    }
                                                }
                                            },
                                            None => lemma_regions_ok(r, re),
                                        }
                                    }
                                } else {
                                    let open = r.asym[ri].0;
                                    lemma_run_end(s, p, open);
                                    let re = run_end(s, p, open);
                                    lemma_asym_close(r, re, r.asym[ri].1);
                                    if re - p != r.asym[ri].2 {
                                        lemma_regions_ok(r, re);
                                    } else {
                                        match r.asym_close(re, r.asym[ri].1) {
                                            Some(cp) => {
                                                lemma_regions_ok(r, cp + 1);
                                                let rest = r.regions_from(cp + 1);
                                                let all = r.regions_from(pos);
                                                assert(all == seq![Span::mk(p, cp + 1)] + rest);
                                                assert(run_of(s, open, p, r.asym[ri].2 as int));
                                                assert forall|i: int| 0 <= i < all.len() implies region_ok(
                                                    r,
                                                    #[trigger] all[i],
                                                    r.fence_at(all[i].start as int) is Some,
                                                ) by {
                                                    if i > 0 {
                                                        assert(all[i] == rest[i - 1]);
                                                    }
                                                }
                                            },
                                            None => lemma_regions_ok(r, re),
                                        }
                                    }
                                }
                            },
                        }
                    },
                }
            },
        }
    }
}

/// A region in front of regions that begin at or after its end keeps them
/// sorted and non-overlapping.
proof fn lemma_prepend(x: Span, rest: Seq<Span>, pos: int, next: int)
    requires
        pos <= x.start < x.end <= next,
        sorted_disjoint(rest),
        forall|i: int| 0 <= i < rest.len() ==> next <= #[trigger] rest[i].start,
    ensures
        sorted_disjoint(seq![x] + rest),
        forall|i: int| 0 <= i < (seq![x] + rest).len() ==> pos <= #[trigger] (seq![x] + rest)[i].start,
{
    let all = seq![x] + rest;
    assert forall|i: int, j: int| 0 <= i < j < all.len() implies #[trigger] all[i].end
        <= #[trigger] all[j].start by {
        assert(all[j] == rest[j - 1]);
        if i > 0 {
            assert(all[i] == rest[i - 1]);
        }
    }
    assert forall|i: int| 0 <= i < all.len() implies #[trigger] all[i].start <= all[i].end by {
        if i > 0 {
            assert(all[i] == rest[i - 1]);
        }
    }
    assert forall|i: int| 0 <= i < all.len() implies pos <= #[trigger] all[i].start by {
        if i > 0 {
            assert(all[i] == rest[i - 1]);
        }
    }
}

/// A sorted, non-overlapping set of byte ranges covered by opaque
/// constructs, shared by the context-aware iterators over one source.
#[derive(Debug)]
pub struct ParseContext {
    spans: Vec<Span>,
    fenced: Vec<bool>,
}

impl View for ParseContext {
    type V = Seq<Span>;

    closed spec fn view(&self) -> Seq<Span> {
        self.spans@
    }
}

impl ParseContext {
    #[verifier::type_invariant]
    spec fn inv(self) -> bool {
        &&& sorted_disjoint(self.spans@)
        &&& self.fenced@.len() == self.spans@.len()
    }

    /// For each region, in the order of [`Self::spans`], whether it is a
    /// fenced block (the other regions are opaque inline constructs).
    pub closed spec fn fenced(&self) -> Seq<bool> {
        self.fenced@
    }

    /// The opaque regions, sorted by `start`, non-overlapping.
    pub fn spans(&self) -> (r: &[Span])
        ensures
            r@ == self@,
            sorted_disjoint(r@),
    {
        proof {
            use_type_invariant(self);
        }
        self.spans.as_slice()
    }

    /// A fresh monotone lookup cursor over this context.
    pub fn cursor(&self) -> (c: ContextCursor<'_>)
        ensures
            c@.spans == self@,
            c@.fenced == self.fenced(),
            c@.idx == 0,
            forall|pos: int| cursor_ready(c@, pos),
            sorted_disjoint(c@.spans),
            c@.fenced.len() == c@.spans.len(),
    {
        proof {
            use_type_invariant(self);
        }
        ContextCursor { spans: self.spans.as_slice(), fenced: self.fenced.as_slice(), idx: 0 }
    }

    /// Build the context in one streaming pass over `source`.
    ///
    /// `fences` are the grammar's fence rules, `sym` and `asym` its opaque
    /// inline rules; `cap_hint` only sizes the first allocation. All may be
    /// empty; no rules give an empty context. The result is the regions of
    /// [`CtxRules::regions_from`] from the start of the source, each marked
    /// fenced exactly when a fenced block opens at its start.
    #[verifier::rlimit(40)]
    pub fn build(
        source: &[u8],
        eol: u8,
        escape: u8,
        sep: u8,
        tab: u8,
        fences: &[FenceSpec],
        sym: &[SymSpec],
        asym: &[AsymSpec],
        cap_hint: usize,
    ) -> (r: Self)
        requires
            source@.len() <= MAX_INPUT_LEN,
        ensures
            r@ == (CtxRules {
                src: source@,
                eol,
                escape,
                sep,
                tab,
                fences: fences@,
                sym: sym@,
                asym: asym@,
            }).regions_from(0),
            r.fenced() == (CtxRules {
                src: source@,
                eol,
                escape,
                sep,
                tab,
                fences: fences@,
                sym: sym@,
                asym: asym@,
            }).fence_flags(r@),
            forall|i: int|
                0 <= i < r@.len() ==> region_ok(
                    CtxRules {
                        src: source@,
                        eol,
                        escape,
                        sep,
                        tab,
                        fences: fences@,
                        sym: sym@,
                        asym: asym@,
                    },
                    #[trigger] r@[i],
                    r.fenced()[i],
                ),
    {
        let ghost rules = CtxRules {
            src: source@,
            eol,
            escape,
            sep,
            tab,
            fences: fences@,
            sym: sym@,
            asym: asym@,
        };
        let len = source.len();
        let mut spans: Vec<Span> = Vec::with_capacity(cap_hint);
        let mut fenced: Vec<bool> = Vec::with_capacity(cap_hint);
        let mut needle_buf = [0u8; MAX_NEEDLES];
        let nn = build_needles(fences, sym, asym, &mut needle_buf);
        let needles = slice_subrange(vstd::array::array_as_slice(&needle_buf), 0, nn);
        proof {
            assert(needles@ == rules.needles());
            assert(spans@ + rules.regions_from(0) =~= rules.regions_from(0));
        }
        let mut pos: usize = 0;
        while pos < len
            invariant
                pos <= len == source@.len() <= MAX_INPUT_LEN,
                rules.src == source@,
                rules.eol == eol,
                rules.escape == escape,
                rules.sep == sep,
                rules.tab == tab,
                rules.fences == fences@,
                rules.sym == sym@,
                rules.asym == asym@,
                needles@ == rules.needles(),
                needles@.len() <= MAX_NEEDLES,
                spans@ + rules.regions_from(pos as int) == rules.regions_from(0),
                fenced@ == rules.fence_flags(spans@),
            ensures
                spans@ == rules.regions_from(0),
                fenced@ == rules.fence_flags(spans@),
            decreases len - pos,
        {
            let ghost s = source@;
            let hay = slice_subrange(source, pos, len);
            proof {
                lemma_findn_suffix(s, pos as int, pos as int, needles@);
                lemma_findn(s, pos as int, needles@);
            }
            let r = match find_needle(needles, hay) {
                Some(r) => r,
                None => {
                    proof {
                        assert(spans@ + rules.regions_from(pos as int) =~= spans@);
                    }
                    break;
                },
            };
            let p = pos + r;
            let b = source[p];
            proof {
                lemma_fence_at(rules, p as int);
                lemma_rule_of(sym@, asym@, b);
            }
            if is_fence_byte(b, fences) && (p == 0 || source[p - 1] == eol) {
                let le = find_line_end(source, p, eol);
                if let Some(open_count) = fence_opens(source, p, le, fences) {
                    let end = fence_close_scan(source, le, len, b, open_count, eol, sep, tab);
                    let ghost before = spans@;
                    spans.push(Span::new(p as u32, end as u32));
                    fenced.push(true);
                    proof {
                        assert(fenced@ =~= rules.fence_flags(spans@));
                    }
                    pos = if end < len {
                        end + 1
                    } else {
                        len
                    };
                    proof {
                        assert(spans@ + rules.regions_from(pos as int) =~= before + (seq![
                            Span::mk(p as int, end as int),
                        ] + rules.regions_from(pos as int)));
                    }
                    continue;
                }
            }
            let (is_sym, ri) = match rule_for(b, sym, asym) {
                Some(x) => x,
                None => {
                    pos = p + 1;
                    continue;
                },
            };
            if count_escape(source, p, escape) % 2 == 1 {
                pos = p + 1;
                continue;
            }
            if is_sym {
                let (byte, count) = sym[ri];
                let (run_end, c) = scan_run(source, p, byte);
                proof {
                    lemma_run_end(s, p as int, byte);
                    lemma_sym_close(rules, run_end as int, byte, count);
                }
                if c != count {
                    pos = run_end;
                    continue;
                }
                match sym_close(source, run_end, len, byte, count, escape, eol, fences) {
                    Some(close_end) => {
                        let ghost before = spans@;
                        spans.push(Span::new(p as u32, close_end as u32));
                        fenced.push(false);
                        proof {
                            assert(fenced@ =~= rules.fence_flags(spans@));
                        }
                        pos = close_end;
                        proof {
                            assert(spans@ + rules.regions_from(pos as int) =~= before + (seq![
                                Span::mk(p as int, close_end as int),
                            ] + rules.regions_from(pos as int)));
                        }
                    },
                    None => pos = run_end,
                }
            } else {
                let (open, close, count) = asym[ri];
                let (run_end, c) = scan_run(source, p, open);
                proof {
                    lemma_run_end(s, p as int, open);
                    lemma_asym_close(rules, run_end as int, close);
                }
                if c != count {
                    pos = run_end;
                    continue;
                }
                match asym_close(source, run_end, len, close, escape, eol, fences) {
                    Some(cp) => {
                        let ghost before = spans@;
                        spans.push(Span::new(p as u32, (cp + 1) as u32));
                        fenced.push(false);
                        proof {
                            assert(fenced@ =~= rules.fence_flags(spans@));
                        }
                        pos = cp + 1;
                        proof {
                            assert(spans@ + rules.regions_from(pos as int) =~= before + (seq![
                                Span::mk(p as int, cp + 1),
                            ] + rules.regions_from(pos as int)));
                        }
                    },
                    None => pos = run_end,
                }
            }
        }
        proof {
            lemma_regions_from(rules, 0);
            lemma_regions_ok(rules, 0);
        }
        ParseContext { spans, fenced }
    }
}

impl Clone for ParseContext {
    /// A copy with the same regions and marks.
    fn clone(&self) -> (r: Self)
        ensures
            r@ == self@,
            r.fenced() == self.fenced(),
    {
        proof {
            use_type_invariant(self);
        }
        let mut spans: Vec<Span> = Vec::with_capacity(self.spans.len());
        let mut fenced: Vec<bool> = Vec::with_capacity(self.spans.len());
        let mut i: usize = 0;
        while i < self.spans.len()
            invariant
                i <= self.spans@.len() == self.fenced@.len(),
                spans@ == self.spans@.take(i as int),
                fenced@ == self.fenced@.take(i as int),
            decreases self.spans@.len() - i,
        {
            spans.push(self.spans[i]);
            fenced.push(self.fenced[i]);
            i += 1;
            proof {
                assert(spans@ =~= self.spans@.take(i as int));
                assert(fenced@ =~= self.fenced@.take(i as int));
            }
        }
        proof {
            assert(spans@ =~= self.spans@);
            assert(fenced@ =~= self.fenced@);
        }
        ParseContext { spans, fenced }
    }
}

impl Default for ParseContext {
    /// The empty context: no opaque regions.
    fn default() -> (r: Self)
        ensures
            r@ == Seq::<Span>::empty(),
            r.fenced() == Seq::<bool>::empty(),
    {
        ParseContext { spans: Vec::new(), fenced: Vec::new() }
    }
}

/// The state of a context cursor: the regions, their fenced-block marks,
/// and the index of the first region not yet passed.
pub struct CursorView {
    pub spans: Seq<Span>,
    pub fenced: Seq<bool>,
    pub idx: int,
}

/// Every region the cursor has passed ends at or before `pos`: a fresh
/// cursor is ready for any position, and a query at `pos` leaves the cursor
/// ready for `pos` and every later position.
pub open spec fn cursor_ready(c: CursorView, pos: int) -> bool {
    forall|i: int| 0 <= i < c.idx ==> #[trigger] c.spans[i].end <= pos
}

/// Readiness carries over to later positions, so queries in non-decreasing
/// order are each answered for the whole context.
pub proof fn lemma_cursor_ready_later(c: CursorView, pos: int, later: int)
    requires
        cursor_ready(c, pos),
        pos <= later,
    ensures
        cursor_ready(c, later),
{
}

/// Some region at or after index `from` covers `pos`.
pub open spec fn covered_from(spans: Seq<Span>, from: int, pos: int) -> bool {
    exists|i: int| from <= i < spans.len() && #[trigger] spans[i].start <= pos < spans[i].end
}

/// The index of the region that covers `pos`, if one does (in a sorted,
/// non-overlapping context at most one does).
pub open spec fn cover_index(spans: Seq<Span>, pos: int) -> Option<int> {
    if covered_from(spans, 0, pos) {
        Some(choose|i: int| 0 <= i < spans.len() && #[trigger] spans[i].start <= pos < spans[i].end)
    } else {
        None
    }
}

/// The end of the region that covers `pos`, if one does.
pub open spec fn cover_end(spans: Seq<Span>, pos: int) -> Option<int> {
    match cover_index(spans, pos) {
        Some(i) => Some(spans[i].end as int),
        None => None,
    }
}

/// In a sorted, non-overlapping context, a region covering `pos` is the one
/// `cover_index` and `cover_end` name.
pub proof fn lemma_cover_unique(spans: Seq<Span>, i: int, pos: int)
    requires
        sorted_disjoint(spans),
        0 <= i < spans.len(),
        spans[i].start <= pos < spans[i].end,
    ensures
        cover_index(spans, pos) == Some(i),
        cover_end(spans, pos) == Some(spans[i].end as int),
{
    assert(covered_from(spans, 0, pos));
    let k = choose|k: int| 0 <= k < spans.len() && #[trigger] spans[k].start <= pos < spans[k].end;
    if k < i {
        assert(spans[k].end <= spans[i].start);
    } else if k > i {
        assert(spans[i].end <= spans[k].start);
    }
}

/// The region covering `pos` ends after it, and within any bound that every
/// region's end keeps.
pub proof fn lemma_cover_end_bounds(spans: Seq<Span>, pos: int, len: int)
    requires
        forall|i: int| 0 <= i < spans.len() ==> #[trigger] spans[i].end <= len,
    ensures
        cover_end(spans, pos) matches Some(e) ==> pos < e <= len,
        cover_index(spans, pos) matches Some(i) ==> 0 <= i < spans.len() && spans[i].start <= pos
            < spans[i].end,
        spans.len() == 0 ==> cover_end(spans, pos) is None,
{
    if covered_from(spans, 0, pos) {
        let k = choose|k: int| 0 <= k < spans.len() && #[trigger] spans[k].start <= pos < spans[k].end;
        assert(spans[k].end <= len);
    }
}

/// A monotone lookup cursor over a [`ParseContext`]: it only moves forward,
/// so queries in non-decreasing position order take amortized constant
/// time. A copy forks a lookahead without moving the cursor it copies.
#[derive(Debug, Clone, Copy)]
pub struct ContextCursor<'m> {
    spans: &'m [Span],
    fenced: &'m [bool],
    idx: usize,
}

impl<'m> View for ContextCursor<'m> {
    type V = CursorView;

    closed spec fn view(&self) -> CursorView {
        CursorView { spans: self.spans@, fenced: self.fenced@, idx: self.idx as int }
    }
}

impl<'m> ContextCursor<'m> {
    #[verifier::type_invariant]
    spec fn inv(self) -> bool {
        &&& self.idx <= self.spans@.len()
        &&& sorted_disjoint(self.spans@)
        &&& self.fenced@.len() == self.spans@.len()
    }

    /// Is `pos` inside a region not yet passed? The cursor passes every
    /// region that ends at or before `pos`.
    pub fn is_covered(&mut self, pos: usize) -> (r: bool)
        ensures
            final(self)@.spans == old(self)@.spans,
            final(self)@.fenced == old(self)@.fenced,
            old(self)@.idx <= final(self)@.idx,
            forall|i: int|
                old(self)@.idx <= i < final(self)@.idx ==> #[trigger] old(self)@.spans[i].end <= pos,
            r == covered_from(old(self)@.spans, old(self)@.idx, pos as int),
            cursor_ready(old(self)@, pos as int) ==> r == cover_end(old(self)@.spans, pos as int) is Some,
            cursor_ready(old(self)@, pos as int) ==> cursor_ready(final(self)@, pos as int),
            final(self)@.idx <= final(self)@.spans.len(),
            sorted_disjoint(final(self)@.spans),
    {
        self.covering_end(pos).is_some()
    }

    /// If `pos` is inside a region not yet passed, that region's `end`
    /// (exclusive), so the caller can jump past it; `None` when uncovered.
    /// The cursor passes every region that ends at or before `pos`.
    pub fn covering_end(&mut self, pos: usize) -> (r: Option<usize>)
        ensures
            final(self)@.spans == old(self)@.spans,
            final(self)@.fenced == old(self)@.fenced,
            old(self)@.idx <= final(self)@.idx,
            forall|i: int|
                old(self)@.idx <= i < final(self)@.idx ==> #[trigger] old(self)@.spans[i].end <= pos,
            r is Some == covered_from(old(self)@.spans, old(self)@.idx, pos as int),
            r matches Some(e) ==> exists|i: int|
                old(self)@.idx <= i < old(self)@.spans.len() && #[trigger] old(self)@.spans[i].start
                    <= pos < old(self)@.spans[i].end && e == old(self)@.spans[i].end,
            cursor_ready(old(self)@, pos as int) ==> r == (match cover_end(old(self)@.spans, pos as int) {
                Some(e) => Some(e as usize),
                None => None::<usize>,
            }),
            cursor_ready(old(self)@, pos as int) ==> cursor_ready(final(self)@, pos as int),
            final(self)@.idx <= final(self)@.spans.len(),
            sorted_disjoint(final(self)@.spans),
    {
        match self.covering_region(pos) {
            Some((e, _)) => Some(e),
            None => None,
        }
    }

    /// As [`Self::covering_end`], with whether the covering region is a
    /// fenced block.
    pub fn covering_region(&mut self, pos: usize) -> (r: Option<(usize, bool)>)
        ensures
            final(self)@.spans == old(self)@.spans,
            final(self)@.fenced == old(self)@.fenced,
            old(self)@.idx <= final(self)@.idx,
            forall|i: int|
                old(self)@.idx <= i < final(self)@.idx ==> #[trigger] old(self)@.spans[i].end <= pos,
            r is Some == covered_from(old(self)@.spans, old(self)@.idx, pos as int),
            r matches Some((e, f)) ==> exists|i: int|
                old(self)@.idx <= i < old(self)@.spans.len() && #[trigger] old(self)@.spans[i].start
                    <= pos < old(self)@.spans[i].end && e == old(self)@.spans[i].end && f
                    == old(self)@.fenced[i],
            cursor_ready(old(self)@, pos as int) ==> r == (match cover_index(old(self)@.spans, pos as int) {
                Some(i) => Some((old(self)@.spans[i].end as usize, old(self)@.fenced[i])),
                None => None::<(usize, bool)>,
            }),
            cursor_ready(old(self)@, pos as int) ==> cursor_ready(final(self)@, pos as int),
            final(self)@.idx <= final(self)@.spans.len(),
            sorted_disjoint(final(self)@.spans),
    {
        proof {
            use_type_invariant(&*self);
        }
        let ghost sp = self.spans@;
        let ghost fd = self.fenced@;
        let ghost idx0 = self.idx as int;
        while self.idx < self.spans.len() && (self.spans[self.idx].end as usize) <= pos
            invariant
                self.spans@ == sp,
                self.fenced@ == fd,
                fd.len() == sp.len(),
                idx0 <= self.idx <= sp.len(),
                sorted_disjoint(sp),
                forall|i: int| idx0 <= i < self.idx ==> #[trigger] sp[i].end <= pos,
            decreases sp.len() - self.idx,
        {
            self.idx += 1;
        }
        if self.idx < self.spans.len() {
            let s = self.spans[self.idx];
            if (s.start as usize) <= pos {
                proof {
                    assert(sp[self.idx as int].start <= pos < sp[self.idx as int].end);
                    assert(old(self)@.spans[self.idx as int].start <= pos);
                    lemma_cover_unique(sp, self.idx as int, pos as int);
                }
                return Some((s.end as usize, self.fenced[self.idx]));
            }
            proof {
                assert forall|i: int| idx0 <= i < sp.len() implies !(#[trigger] sp[i].start <= pos
                    < sp[i].end) by {
                    if i > self.idx {
                        assert(sp[self.idx as int].end <= sp[i].start);
                    }
                }
            }
        }
        proof {
            if forall|i: int| 0 <= i < idx0 ==> #[trigger] sp[i].end <= pos {
                lemma_cursor_complete(sp, idx0, pos as int);
            }
        }
        None
    }
}

/// A cursor whose passed regions all end at or before `pos` (as they do
/// when its queries come in non-decreasing order) answers for the whole
/// context: a region covers `pos` exactly when one not yet passed does.
pub proof fn lemma_cursor_complete(spans: Seq<Span>, idx: int, pos: int)
    requires
        0 <= idx <= spans.len(),
        forall|i: int| 0 <= i < idx ==> #[trigger] spans[i].end <= pos,
    ensures
        covered_from(spans, idx, pos) == covered_from(spans, 0, pos),
{
    if covered_from(spans, 0, pos) {
        let i = choose|i: int| 0 <= i < spans.len() && #[trigger] spans[i].start <= pos < spans[i].end;
        assert(i >= idx);
    }
}

} // verus!
