//! Context-aware standalone iterators: [`ContextSymmetricExactIter`] and
//! [`ContextAsymmetricExactIter`].
//!
//! Each is the streaming matcher of its context-free sibling with two
//! additions driven by a [`ParseContext`]: a candidate delimiter inside an
//! opaque region is skipped and the scan resumes after that region; and a
//! fenced block met at a line start during the close search aborts the
//! pending opener, since a block construct ends the paragraph (an inline
//! region there, even one that spans a line break, is skipped like any
//! other). The context suppresses candidate positions, not enclosing
//! spans: a yielded span may contain an opaque region.
use vstd::prelude::*;
use crate::search::{find1, find2, lemma_find1, lemma_find1_is, lemma_find2, find_byte, find_byte2};
use crate::span::{Span, MAX_INPUT_LEN};
use super::common::{count_escape, escaped, run_end, lemma_run_end, scan_run, para_find};
use super::context::{
    ContextCursor, ParseContext, cover_end, cover_index, lemma_cover_end_bounds,
};
use super::symmetric::{SymmetricScan, sym_close, run_of, no_blank_line, no_run_of_len, lemma_run_of};
use super::asymmetric::AsymmetricScan;

verus! {

/// The context-aware paragraph-bounded close search shared by both rules,
/// at an `eol` at `q`: `None` when the paragraph ends there (end of input,
/// an empty line, or a fenced block leading the next line), else where the
/// search resumes (past an inline region leading the next line, or just
/// past the `eol`). `fenced` marks which of `spans` are fenced blocks.
pub open spec fn resume_after_eol(
    s: Seq<u8>,
    eol: u8,
    spans: Seq<Span>,
    fenced: Seq<bool>,
    q: int,
) -> Option<int> {
    if q + 1 >= s.len() || s[q + 1] == eol {
        None
    } else {
        match cover_index(spans, q + 1) {
            Some(i) => if fenced[i] {
                None
            } else {
                Some(spans[i].end as int)
            },
            None => Some(q + 1),
        }
    }
}

/// Context-aware symmetric close search from `j`: the first uncovered run
/// of exactly `count` `byte`s, as `(run start, run end)`; covered bytes are
/// skipped past their region, and the search is paragraph-bounded as
/// [`resume_after_eol`] says.
pub open spec fn ctx_sym_close(
    s: Seq<u8>,
    byte: u8,
    count: u32,
    eol: u8,
    spans: Seq<Span>,
    fenced: Seq<bool>,
    j: int,
) -> Option<(int, int)>
    decreases s.len() - j,
{
    if j < 0 {
        None
    } else {
        match find2(s, j, byte, eol) {
            None => None,
            Some(q) => {
                proof {
                    lemma_find2(s, j, byte, eol);
                    lemma_run_end(s, q, byte);
                }
                if s[q] == eol {
                    match resume_after_eol(s, eol, spans, fenced, q) {
                        Some(nj) => if q < nj <= s.len() {
                            ctx_sym_close(s, byte, count, eol, spans, fenced, nj)
                        } else {
                            None
                        },
                        None => None,
                    }
                } else {
                    match cover_end(spans, q) {
                        Some(ce) => if q < ce <= s.len() {
                            ctx_sym_close(s, byte, count, eol, spans, fenced, ce)
                        } else {
                            None
                        },
                        None => {
                            let t = run_end(s, q, byte);
                            if t - q == count {
                                Some((q, t))
                            } else {
                                ctx_sym_close(s, byte, count, eol, spans, fenced, t)
                            }
                        },
                    }
                }
            },
        }
    }
}

/// Context-aware asymmetric close search from `j`: the first uncovered
/// `close` byte, with the same skipping and paragraph bounds as
/// [`ctx_sym_close`].
pub open spec fn ctx_asym_close(s: Seq<u8>, close: u8, eol: u8, spans: Seq<Span>, fenced: Seq<bool>, j: int) -> Option<
    int,
>
    decreases s.len() - j,
{
    if j < 0 {
        None
    } else {
        match find2(s, j, close, eol) {
            None => None,
            Some(q) => {
                proof {
                    lemma_find2(s, j, close, eol);
                }
                if s[q] == eol {
                    match resume_after_eol(s, eol, spans, fenced, q) {
                        Some(nj) => if q < nj <= s.len() {
                            ctx_asym_close(s, close, eol, spans, fenced, nj)
                        } else {
                            None
                        },
                        None => None,
                    }
                } else {
                    match cover_end(spans, q) {
                        Some(ce) => if q < ce <= s.len() {
                            ctx_asym_close(s, close, eol, spans, fenced, ce)
                        } else {
                            None
                        },
                        None => Some(q),
                    }
                }
            },
        }
    }
}

/// The state of a context-aware symmetric scan: the source, the rule, the
/// context's regions, and the position the remaining matches are searched
/// from.
pub struct ContextSymScan {
    pub src: Seq<u8>,
    pub byte: u8,
    pub count: u32,
    pub eol: u8,
    pub escape: u8,
    pub spans: Seq<Span>,
    pub fenced: Seq<bool>,
    pub pos: int,
}

impl ContextSymScan {
    /// The same scan resumed at `pos`.
    pub open spec fn at(self, pos: int) -> ContextSymScan {
        ContextSymScan { pos, ..self }
    }

    /// The next match at or after `pos`, with the position after it: as the
    /// context-free scan, but a covered candidate opener resumes the scan
    /// after its region, and the close is searched with [`ctx_sym_close`].
    pub open spec fn step(self) -> Option<(Span, int)>
        decreases self.src.len() - self.pos,
    {
        let s = self.src;
        if self.pos < 0 {
            None
        } else {
            match find1(s, self.pos, self.byte) {
                None => None,
                Some(p) => {
                    proof {
                        lemma_find1(s, self.pos, self.byte);
                        lemma_run_end(s, p, self.byte);
                    }
                    match cover_end(self.spans, p) {
                        Some(ce) => if p < ce <= s.len() {
                            self.at(ce).step()
                        } else {
                            None
                        },
                        None => if escaped(s, p, self.escape) {
                            self.at(p + 1).step()
                        } else {
                            let end = run_end(s, p, self.byte);
                            if end - p != self.count {
                                self.at(end).step()
                            } else {
                                match ctx_sym_close(s, self.byte, self.count, self.eol, self.spans, self.fenced, end) {
                                    Some((q, t)) => Some((Span::mk(end, q), t)),
                                    None => self.at(end).step(),
                                }
                            }
                        },
                    }
                },
            }
        }
    }

    /// Every match at or after `pos`, in order.
    pub open spec fn remaining(self) -> Seq<Span>
        decreases self.src.len() - self.pos,
    {
        match self.step() {
            None => Seq::empty(),
            Some((sp, np)) => if np <= self.pos || np > self.src.len() {
                Seq::empty()
            } else {
                seq![sp] + self.at(np).remaining()
            },
        }
    }

    /// The context-free scan with the same source, rule and position.
    pub open spec fn plain(self) -> SymmetricScan {
        SymmetricScan {
            src: self.src,
            byte: self.byte,
            count: self.count,
            eol: self.eol,
            escape: self.escape,
            pos: self.pos,
        }
    }
}

/// The state of a context-aware asymmetric scan.
pub struct ContextAsymScan {
    pub src: Seq<u8>,
    pub open: u8,
    pub close: u8,
    pub count: u32,
    pub eol: u8,
    pub escape: u8,
    pub spans: Seq<Span>,
    pub fenced: Seq<bool>,
    pub pos: int,
}

impl ContextAsymScan {
    /// The same scan resumed at `pos`.
    pub open spec fn at(self, pos: int) -> ContextAsymScan {
        ContextAsymScan { pos, ..self }
    }

    /// The next match at or after `pos`, with the position after it: as the
    /// context-free scan, but a covered candidate opener resumes the scan
    /// after its region, and the close is searched with [`ctx_asym_close`].
    pub open spec fn step(self) -> Option<(Span, int)>
        decreases self.src.len() - self.pos,
    {
        let s = self.src;
        if self.pos < 0 {
            None
        } else {
            match find1(s, self.pos, self.open) {
                None => None,
                Some(p) => {
                    proof {
                        lemma_find1(s, self.pos, self.open);
                        lemma_run_end(s, p, self.open);
                    }
                    match cover_end(self.spans, p) {
                        Some(ce) => if p < ce <= s.len() {
                            self.at(ce).step()
                        } else {
                            None
                        },
                        None => if escaped(s, p, self.escape) {
                            self.at(p + 1).step()
                        } else {
                            let end = run_end(s, p, self.open);
                            if end - p != self.count {
                                self.at(end).step()
                            } else {
                                match ctx_asym_close(s, self.close, self.eol, self.spans, self.fenced, end) {
                                    Some(q) => Some((Span::mk(end, q), q + 1)),
                                    None => self.at(end).step(),
                                }
                            }
                        },
                    }
                },
            }
        }
    }

    /// Every match at or after `pos`, in order.
    pub open spec fn remaining(self) -> Seq<Span>
        decreases self.src.len() - self.pos,
    {
        match self.step() {
            None => Seq::empty(),
            Some((sp, np)) => if np <= self.pos || np > self.src.len() {
                Seq::empty()
            } else {
                seq![sp] + self.at(np).remaining()
            },
        }
    }

    /// The context-free scan with the same source, rule and position.
    pub open spec fn plain(self) -> AsymmetricScan {
        AsymmetricScan {
            src: self.src,
            open: self.open,
            close: self.close,
            count: self.count,
            eol: self.eol,
            escape: self.escape,
            pos: self.pos,
        }
    }
}

/// With no opaque regions the symmetric close search is the context-free
/// one.
pub proof fn lemma_ctx_sym_close_empty(
    s: Seq<u8>,
    byte: u8,
    count: u32,
    eol: u8,
    fenced: Seq<bool>,
    j: int,
)
    ensures
        ctx_sym_close(s, byte, count, eol, Seq::empty(), fenced, j) == sym_close(s, byte, count, eol, j),
    decreases s.len() - j,
{
    if j >= 0 {
        lemma_find2(s, j, byte, eol);
        match find2(s, j, byte, eol) {
            None => {},
            Some(q) => {
                lemma_run_end(s, q, byte);
                lemma_cover_end_bounds(Seq::<Span>::empty(), q, 0);
                lemma_cover_end_bounds(Seq::<Span>::empty(), q + 1, 0);
                if s[q] == eol {
                    if !(q + 1 >= s.len() || s[q + 1] == eol) {
                        lemma_ctx_sym_close_empty(s, byte, count, eol, fenced, q + 1);
                    }
                } else {
                    let t = run_end(s, q, byte);
                    if t - q != count {
                        lemma_ctx_sym_close_empty(s, byte, count, eol, fenced, t);
                    }
                }
            },
        }
    }
}

/// With no opaque regions the asymmetric close search is the context-free
/// paragraph search.
pub proof fn lemma_ctx_asym_close_empty(s: Seq<u8>, close: u8, eol: u8, fenced: Seq<bool>, j: int)
    ensures
        ctx_asym_close(s, close, eol, Seq::empty(), fenced, j) == para_find(s, close, eol, j),
    decreases s.len() - j,
{
    if j >= 0 {
        lemma_find2(s, j, close, eol);
        match find2(s, j, close, eol) {
            None => {},
            Some(q) => {
                lemma_cover_end_bounds(Seq::<Span>::empty(), q, 0);
                lemma_cover_end_bounds(Seq::<Span>::empty(), q + 1, 0);
                if s[q] == eol {
                    if !(q + 1 >= s.len() || s[q + 1] == eol) {
                        lemma_ctx_asym_close_empty(s, close, eol, fenced, q + 1);
                    }
                }
            },
        }
    }
}

/// With an empty context the context-aware symmetric scan yields exactly
/// what the context-free scan yields.
pub proof fn lemma_ctx_sym_empty(sc: ContextSymScan)
    requires
        sc.spans.len() == 0,
    ensures
        sc.step() == sc.plain().step(),
        sc.remaining() == sc.plain().remaining(),
    decreases sc.src.len() - sc.pos, 1int,
{
    let s = sc.src;
    assert(sc.spans =~= Seq::<Span>::empty());
    if sc.pos >= 0 {
        lemma_find1(s, sc.pos, sc.byte);
        match find1(s, sc.pos, sc.byte) {
            None => {},
            Some(p) => {
                lemma_run_end(s, p, sc.byte);
                lemma_cover_end_bounds(sc.spans, p, 0);
                if escaped(s, p, sc.escape) {
                    lemma_ctx_sym_empty(sc.at(p + 1));
                    assert(sc.at(p + 1).plain() == sc.plain().at(p + 1));
                } else {
                    let end = run_end(s, p, sc.byte);
                    lemma_ctx_sym_close_empty(s, sc.byte, sc.count, sc.eol, sc.fenced, end);
                    if end - p != sc.count {
                        lemma_ctx_sym_empty(sc.at(end));
                        assert(sc.at(end).plain() == sc.plain().at(end));
                    } else if sym_close(s, sc.byte, sc.count, sc.eol, end) is None {
                        lemma_ctx_sym_empty(sc.at(end));
                        assert(sc.at(end).plain() == sc.plain().at(end));
                    }
                }
            },
        }
    }
    match sc.step() {
        None => {},
        Some((sp, np)) => {
            if !(np <= sc.pos || np > sc.src.len()) {
                lemma_ctx_sym_empty(sc.at(np));
                assert(sc.at(np).plain() == sc.plain().at(np));
            }
        },
    }
}

/// With an empty context the context-aware asymmetric scan yields exactly
/// what the context-free scan yields.
pub proof fn lemma_ctx_asym_empty(sc: ContextAsymScan)
    requires
        sc.spans.len() == 0,
    ensures
        sc.step() == sc.plain().step(),
        sc.remaining() == sc.plain().remaining(),
    decreases sc.src.len() - sc.pos, 1int,
{
    let s = sc.src;
    assert(sc.spans =~= Seq::<Span>::empty());
    if sc.pos >= 0 {
        lemma_find1(s, sc.pos, sc.open);
        match find1(s, sc.pos, sc.open) {
            None => {},
            Some(p) => {
                lemma_run_end(s, p, sc.open);
                lemma_cover_end_bounds(sc.spans, p, 0);
                if escaped(s, p, sc.escape) {
                    lemma_ctx_asym_empty(sc.at(p + 1));
                    assert(sc.at(p + 1).plain() == sc.plain().at(p + 1));
                } else {
                    let end = run_end(s, p, sc.open);
                    lemma_ctx_asym_close_empty(s, sc.close, sc.eol, sc.fenced, end);
                    if end - p != sc.count {
                        lemma_ctx_asym_empty(sc.at(end));
                        assert(sc.at(end).plain() == sc.plain().at(end));
                    } else if para_find(s, sc.close, sc.eol, end) is None {
                        lemma_ctx_asym_empty(sc.at(end));
                        assert(sc.at(end).plain() == sc.plain().at(end));
                    }
                }
            },
        }
    }
    match sc.step() {
        None => {},
        Some((sp, np)) => {
            if !(np <= sc.pos || np > sc.src.len()) {
                lemma_ctx_asym_empty(sc.at(np));
                assert(sc.at(np).plain() == sc.plain().at(np));
            }
        },
    }
}


/// The iterator over symmetric exact-delimiter spans of a byte slice that
/// skips the opaque regions of a [`ParseContext`]: the context-aware
/// variant of [`super::symmetric::SymmetricExactIter`].
pub struct ContextSymmetricExactIter<'a> {
    src: &'a [u8],
    byte: u8,
    count: u32,
    eol: u8,
    escape: u8,
    pos: usize,
    cur: ContextCursor<'a>,
}

impl<'a> View for ContextSymmetricExactIter<'a> {
    type V = ContextSymScan;

    closed spec fn view(&self) -> ContextSymScan {
        ContextSymScan {
            src: self.src@,
            byte: self.byte,
            count: self.count,
            eol: self.eol,
            escape: self.escape,
            spans: self.cur@.spans,
            fenced: self.cur@.fenced,
            pos: self.pos as int,
        }
    }
}

impl<'a> ContextSymmetricExactIter<'a> {
    #[verifier::type_invariant]
    spec fn inv(self) -> bool {
        &&& self.pos <= self.src@.len()
        &&& self.src@.len() <= MAX_INPUT_LEN
        &&& forall|i: int| 0 <= i < self.cur@.idx ==> #[trigger] self.cur@.spans[i].end <= self.pos
        &&& forall|i: int|
            0 <= i < self.cur@.spans.len() ==> #[trigger] self.cur@.spans[i].end <= self.src@.len()
    }

    /// Create a context-aware symmetric exact-delimiter iterator over `src`,
    /// with the regions of `ctx` (built from the same source, so that every
    /// region lies within it).
    pub fn new(
        src: &'a [u8],
        byte: u8,
        count: u32,
        eol: u8,
        escape: u8,
        ctx: &'a ParseContext,
    ) -> (it: Self)
        requires
            src@.len() <= MAX_INPUT_LEN,
            forall|i: int| 0 <= i < ctx@.len() ==> #[trigger] ctx@[i].end <= src@.len(),
        ensures
            it@ == (ContextSymScan {
                src: src@,
                byte,
                count,
                eol,
                escape,
                spans: ctx@,
                fenced: ctx.fenced(),
                pos: 0,
            }),
    {
        ContextSymmetricExactIter { src, byte, count, eol, escape, pos: 0, cur: ctx.cursor() }
    }

    /// The next match: the first of the remaining matches, which are then
    /// the rest; `None` once none remain.
    pub fn next(&mut self) -> (r: Option<Span>)
        ensures
            final(self)@ == old(self)@.at(final(self)@.pos),
            match old(self)@.step() {
                Some((sp, np)) => r == Some(sp) && final(self)@.pos == np,
                None => r is None && final(self)@.remaining() == Seq::<Span>::empty(),
            },
            old(self)@.remaining() == (match r {
                Some(sp) => seq![sp] + final(self)@.remaining(),
                None => Seq::<Span>::empty(),
            }),
            r matches Some(sp) ==> ctx_sym_match(
                old(self)@.src,
                old(self)@.byte,
                old(self)@.count,
                old(self)@.eol,
                old(self)@.escape,
                old(self)@.spans,
                old(self)@.fenced,
                sp,
            ),
    {
        proof {
            use_type_invariant(&*self);
            lemma_ctx_sym_moves(self@);
        }
        let ghost sc0 = self@;
        let ghost spans = self.cur@.spans;
        let ghost fenced = self.cur@.fenced;
        let src = self.src;
        let len = src.len();
        let byte = self.byte;
        let count = self.count;
        let eol = self.eol;
        let escape = self.escape;
        loop
            invariant
                self@ == sc0.at(self@.pos),
                sc0 == old(self)@,
                sc0.src == src@,
                spans == sc0.spans,
                fenced == sc0.fenced,
                len == src@.len() <= MAX_INPUT_LEN,
                byte == sc0.byte,
                count == sc0.count,
                eol == sc0.eol,
                escape == sc0.escape,
                0 <= self@.pos <= len,
                self@.step() == sc0.step(),
            decreases len - self@.pos,
        {
            proof {
                use_type_invariant(&*self);
                lemma_find1(src@, self@.pos, byte);
            }
            let p = match find_byte(src, self.pos, byte) {
                Some(p) => p,
                None => {
                    return None;
                },
            };
            let mut cur = self.cur;
            let covered = cur.covering_end(p);
            proof {
                lemma_cover_end_bounds(spans, p as int, len as int);
                lemma_run_end(src@, p as int, byte);
            }
            if let Some(ce) = covered {
                self.pos = ce;
                self.cur = cur;
                continue;
            }
            if count_escape(src, p, escape) % 2 == 1 {
                self.pos = p + 1;
                self.cur = cur;
                continue;
            }
            let (end, c) = scan_run(src, p, byte);
            if c != count {
                self.pos = end;
                self.cur = cur;
                continue;
            }
            let cs = end;
            let mut j = cs;
            let mut ccur = cur;
            let mut close: Option<(usize, usize)> = None;
            loop
                invariant_except_break
                    cs <= j <= len,
                    close is None,
                    ctx_sym_close(src@, byte, count, eol, spans, fenced, j as int) == ctx_sym_close(
                        src@,
                        byte,
                        count,
                        eol,
                        spans,
                        fenced,
                        cs as int,
                    ),
                    forall|i: int| 0 <= i < ccur@.idx ==> #[trigger] ccur@.spans[i].end <= j,
                invariant
                    len == src@.len() <= MAX_INPUT_LEN,
                    ccur@.spans == spans,
                    ccur@.fenced == fenced,
                    forall|i: int| 0 <= i < spans.len() ==> #[trigger] spans[i].end <= len,
                ensures
                    close == (match ctx_sym_close(src@, byte, count, eol, spans, fenced, cs as int) {
                        Some((q, t)) => Some((q as usize, t as usize)),
                        None => None::<(usize, usize)>,
                    }),
                decreases len - j,
            {
                proof {
                    lemma_find2(src@, j as int, byte, eol);
                }
                let q = match find_byte2(src, j, byte, eol) {
                    Some(q) => q,
                    None => {
                        break;
                    },
                };
                if src[q] == eol {
                    if q + 1 >= len || src[q + 1] == eol {
                        break;
                    }
                    let lead = ccur.covering_region(q + 1);
                    proof {
                        lemma_cover_end_bounds(spans, q + 1, len as int);
                    }
                    if let Some((ce, fence)) = lead {
                        if fence {
                            break;
                        }
                        j = ce;
                        continue;
                    }
                    j = q + 1;
                    continue;
                }
                let inside = ccur.covering_end(q);
                proof {
                    lemma_cover_end_bounds(spans, q as int, len as int);
                }
                if let Some(ce) = inside {
                    j = ce;
                    continue;
                }
                let (tmp, cc) = scan_run(src, q, byte);
                proof {
                    lemma_run_end(src@, q as int, byte);
                }
                if cc == count {
                    close = Some((q, tmp));
                    break;
                }
                j = tmp;
            }
            proof {
                lemma_ctx_sym_close_bounds(src@, byte, count, eol, spans, fenced, cs as int);
            }
            match close {
                Some((cp, tmp)) => {
                    self.pos = tmp;
                    self.cur = cur;
                    proof {
                        lemma_ctx_sym_moves(sc0);
                        lemma_ctx_sym_step(sc0);
                    }
                    return Some(Span::new(cs as u32, cp as u32));
                },
                None => {
                    self.pos = end;
                    self.cur = cur;
                },
            }
        }
    }
}

/// A context-aware symmetric close lies after the search start:
/// `j <= q < t <= len`.
proof fn lemma_ctx_sym_close_bounds(
    s: Seq<u8>,
    byte: u8,
    count: u32,
    eol: u8,
    spans: Seq<Span>,
    fenced: Seq<bool>,
    j: int,
)
    requires
        0 <= j <= s.len(),
    ensures
        ctx_sym_close(s, byte, count, eol, spans, fenced, j) matches Some((q, t)) ==> j <= q < t <= s.len(),
    decreases s.len() - j,
{
    lemma_find2(s, j, byte, eol);
    match find2(s, j, byte, eol) {
        None => {},
        Some(q) => {
            lemma_run_end(s, q, byte);
            if s[q] == eol {
                match resume_after_eol(s, eol, spans, fenced, q) {
                    Some(nj) => if q < nj <= s.len() {
                        lemma_ctx_sym_close_bounds(s, byte, count, eol, spans, fenced, nj);
                    },
                    None => {},
                }
            } else {
                match cover_end(spans, q) {
                    Some(ce) => if q < ce <= s.len() {
                        lemma_ctx_sym_close_bounds(s, byte, count, eol, spans, fenced, ce);
                    },
                    None => {
                        let t = run_end(s, q, byte);
                        if t - q != count {
                            lemma_ctx_sym_close_bounds(s, byte, count, eol, spans, fenced, t);
                        }
                    },
                }
            }
        },
    }
}

/// A context-aware symmetric step moves forward within the source, so the
/// remaining matches unfold by one.
proof fn lemma_ctx_sym_moves(sc: ContextSymScan)
    requires
        0 <= sc.pos <= sc.src.len(),
    ensures
        sc.step() matches Some((sp, np)) ==> sc.pos < np <= sc.src.len(),
        sc.step() is None ==> sc.remaining() == Seq::<Span>::empty(),
    decreases sc.src.len() - sc.pos,
{
    let s = sc.src;
    lemma_find1(s, sc.pos, sc.byte);
    match find1(s, sc.pos, sc.byte) {
        None => {},
        Some(p) => {
            lemma_run_end(s, p, sc.byte);
            match cover_end(sc.spans, p) {
                Some(ce) => if p < ce <= s.len() {
                    lemma_ctx_sym_moves(sc.at(ce));
                },
                None => if escaped(s, p, sc.escape) {
                    lemma_ctx_sym_moves(sc.at(p + 1));
                } else {
                    let end = run_end(s, p, sc.byte);
                    lemma_ctx_sym_close_bounds(s, sc.byte, sc.count, sc.eol, sc.spans, sc.fenced, end);
                    if end - p != sc.count {
                        lemma_ctx_sym_moves(sc.at(end));
                    } else if ctx_sym_close(s, sc.byte, sc.count, sc.eol, sc.spans, sc.fenced, end) is None {
                        lemma_ctx_sym_moves(sc.at(end));
                    }
                },
            }
        },
    }
}

/// The iterator over asymmetric exact-delimiter spans of a byte slice that
/// skips the opaque regions of a [`ParseContext`]: the context-aware
/// variant of [`super::asymmetric::AsymmetricExactIter`].
pub struct ContextAsymmetricExactIter<'a> {
    src: &'a [u8],
    open: u8,
    close: u8,
    count: u32,
    eol: u8,
    escape: u8,
    pos: usize,
    cur: ContextCursor<'a>,
}

impl<'a> View for ContextAsymmetricExactIter<'a> {
    type V = ContextAsymScan;

    closed spec fn view(&self) -> ContextAsymScan {
        ContextAsymScan {
            src: self.src@,
            open: self.open,
            close: self.close,
            count: self.count,
            eol: self.eol,
            escape: self.escape,
            spans: self.cur@.spans,
            fenced: self.cur@.fenced,
            pos: self.pos as int,
        }
    }
}

impl<'a> ContextAsymmetricExactIter<'a> {
    #[verifier::type_invariant]
    spec fn inv(self) -> bool {
        &&& self.pos <= self.src@.len()
        &&& self.src@.len() <= MAX_INPUT_LEN
        &&& forall|i: int| 0 <= i < self.cur@.idx ==> #[trigger] self.cur@.spans[i].end <= self.pos
        &&& forall|i: int|
            0 <= i < self.cur@.spans.len() ==> #[trigger] self.cur@.spans[i].end <= self.src@.len()
    }

    /// Create a context-aware asymmetric exact-delimiter iterator over `src`,
    /// with the regions of `ctx` (built from the same source, so that every
    /// region lies within it).
    pub fn new(
        src: &'a [u8],
        open: u8,
        close: u8,
        count: u32,
        eol: u8,
        escape: u8,
        ctx: &'a ParseContext,
    ) -> (it: Self)
        requires
            src@.len() <= MAX_INPUT_LEN,
            forall|i: int| 0 <= i < ctx@.len() ==> #[trigger] ctx@[i].end <= src@.len(),
        ensures
            it@ == (ContextAsymScan {
                src: src@,
                open,
                close,
                count,
                eol,
                escape,
                spans: ctx@,
                fenced: ctx.fenced(),
                pos: 0,
            }),
    {
        ContextAsymmetricExactIter {
            src,
            open,
            close,
            count,
            eol,
            escape,
            pos: 0,
            cur: ctx.cursor(),
        }
    }

    /// The next match: the first of the remaining matches, which are then
    /// the rest; `None` once none remain.
    pub fn next(&mut self) -> (r: Option<Span>)
        ensures
            final(self)@ == old(self)@.at(final(self)@.pos),
            match old(self)@.step() {
                Some((sp, np)) => r == Some(sp) && final(self)@.pos == np,
                None => r is None && final(self)@.remaining() == Seq::<Span>::empty(),
            },
            old(self)@.remaining() == (match r {
                Some(sp) => seq![sp] + final(self)@.remaining(),
                None => Seq::<Span>::empty(),
            }),
            r matches Some(sp) ==> ctx_asym_match(
                old(self)@.src,
                old(self)@.open,
                old(self)@.close,
                old(self)@.count,
                old(self)@.eol,
                old(self)@.escape,
                old(self)@.spans,
                old(self)@.fenced,
                sp,
            ),
    {
        proof {
            use_type_invariant(&*self);
            lemma_ctx_asym_moves(self@);
        }
        let ghost sc0 = self@;
        let ghost spans = self.cur@.spans;
        let ghost fenced = self.cur@.fenced;
        let src = self.src;
        let len = src.len();
        let open = self.open;
        let close = self.close;
        let count = self.count;
        let eol = self.eol;
        let escape = self.escape;
        loop
            invariant
                self@ == sc0.at(self@.pos),
                sc0 == old(self)@,
                sc0.src == src@,
                spans == sc0.spans,
                fenced == sc0.fenced,
                len == src@.len() <= MAX_INPUT_LEN,
                open == sc0.open,
                close == sc0.close,
                count == sc0.count,
                eol == sc0.eol,
                escape == sc0.escape,
                0 <= self@.pos <= len,
                self@.step() == sc0.step(),
            decreases len - self@.pos,
        {
            proof {
                use_type_invariant(&*self);
                lemma_find1(src@, self@.pos, open);
            }
            let p = match find_byte(src, self.pos, open) {
                Some(p) => p,
                None => {
                    return None;
                },
            };
            let mut cur = self.cur;
            let covered = cur.covering_end(p);
            proof {
                lemma_cover_end_bounds(spans, p as int, len as int);
                lemma_run_end(src@, p as int, open);
            }
            if let Some(ce) = covered {
                self.pos = ce;
                self.cur = cur;
                continue;
            }
            if count_escape(src, p, escape) % 2 == 1 {
                self.pos = p + 1;
                self.cur = cur;
                continue;
            }
            let (end, c) = scan_run(src, p, open);
            if c != count {
                self.pos = end;
                self.cur = cur;
                continue;
            }
            let cs = end;
            let mut j = cs;
            let mut ccur = cur;
            let mut found: Option<usize> = None;
            loop
                invariant_except_break
                    cs <= j <= len,
                    found is None,
                    ctx_asym_close(src@, close, eol, spans, fenced, j as int) == ctx_asym_close(
                        src@,
                        close,
                        eol,
                        spans,
                        fenced,
                        cs as int,
                    ),
                    forall|i: int| 0 <= i < ccur@.idx ==> #[trigger] ccur@.spans[i].end <= j,
                invariant
                    len == src@.len() <= MAX_INPUT_LEN,
                    ccur@.spans == spans,
                    ccur@.fenced == fenced,
                    forall|i: int| 0 <= i < spans.len() ==> #[trigger] spans[i].end <= len,
                ensures
                    found == (match ctx_asym_close(src@, close, eol, spans, fenced, cs as int) {
                        Some(q) => Some(q as usize),
                        None => None::<usize>,
                    }),
                decreases len - j,
            {
                proof {
                    lemma_find2(src@, j as int, close, eol);
                }
                let q = match find_byte2(src, j, close, eol) {
                    Some(q) => q,
                    None => {
                        break;
                    },
                };
                if src[q] == eol {
                    if q + 1 >= len || src[q + 1] == eol {
                        break;
                    }
                    let lead = ccur.covering_region(q + 1);
                    proof {
                        lemma_cover_end_bounds(spans, q + 1, len as int);
                    }
                    if let Some((ce, fence)) = lead {
                        if fence {
                            break;
                        }
                        j = ce;
                        continue;
                    }
                    j = q + 1;
                    continue;
                }
                let inside = ccur.covering_end(q);
                proof {
                    lemma_cover_end_bounds(spans, q as int, len as int);
                }
                if let Some(ce) = inside {
                    j = ce;
                    continue;
                }
                found = Some(q);
                break;
            }
            proof {
                lemma_ctx_asym_close_bounds(src@, close, eol, spans, fenced, cs as int);
            }
            match found {
                Some(cp) => {
                    self.pos = cp + 1;
                    self.cur = cur;
                    proof {
                        lemma_ctx_asym_moves(sc0);
                        lemma_ctx_asym_step(sc0);
                    }
                    return Some(Span::new(cs as u32, cp as u32));
                },
                None => {
                    self.pos = end;
                    self.cur = cur;
                },
            }
        }
    }
}

/// A context-aware asymmetric close lies at or after the search start, on
/// a `close` byte within the source.
proof fn lemma_ctx_asym_close_bounds(s: Seq<u8>, close: u8, eol: u8, spans: Seq<Span>, fenced: Seq<bool>, j: int)
    requires
        0 <= j <= s.len(),
    ensures
        ctx_asym_close(s, close, eol, spans, fenced, j) matches Some(q) ==> j <= q < s.len() && s[q]
            == close,
    decreases s.len() - j,
{
    lemma_find2(s, j, close, eol);
    match find2(s, j, close, eol) {
        None => {},
        Some(q) => {
            if s[q] == eol {
                match resume_after_eol(s, eol, spans, fenced, q) {
                    Some(nj) => if q < nj <= s.len() {
                        lemma_ctx_asym_close_bounds(s, close, eol, spans, fenced, nj);
                    },
                    None => {},
                }
            } else {
                match cover_end(spans, q) {
                    Some(ce) => if q < ce <= s.len() {
                        lemma_ctx_asym_close_bounds(s, close, eol, spans, fenced, ce);
                    },
                    None => {},
                }
            }
        },
    }
}

/// A context-aware asymmetric step moves forward within the source, so the
/// remaining matches unfold by one.
proof fn lemma_ctx_asym_moves(sc: ContextAsymScan)
    requires
        0 <= sc.pos <= sc.src.len(),
    ensures
        sc.step() matches Some((sp, np)) ==> sc.pos < np <= sc.src.len(),
        sc.step() is None ==> sc.remaining() == Seq::<Span>::empty(),
    decreases sc.src.len() - sc.pos,
{
    let s = sc.src;
    lemma_find1(s, sc.pos, sc.open);
    match find1(s, sc.pos, sc.open) {
        None => {},
        Some(p) => {
            lemma_run_end(s, p, sc.open);
            match cover_end(sc.spans, p) {
                Some(ce) => if p < ce <= s.len() {
                    lemma_ctx_asym_moves(sc.at(ce));
                },
                None => if escaped(s, p, sc.escape) {
                    lemma_ctx_asym_moves(sc.at(p + 1));
                } else {
                    let end = run_end(s, p, sc.open);
                    lemma_ctx_asym_close_bounds(s, sc.close, sc.eol, sc.spans, sc.fenced, end);
                    if end - p != sc.count {
                        lemma_ctx_asym_moves(sc.at(end));
                    } else if ctx_asym_close(s, sc.close, sc.eol, sc.spans, sc.fenced, end) is None {
                        lemma_ctx_asym_moves(sc.at(end));
                    }
                },
            }
        },
    }
}


/// Is `p` inside a region that `fenced` marks as a fenced block?
pub open spec fn in_fence(spans: Seq<Span>, fenced: Seq<bool>, p: int) -> bool {
    match cover_index(spans, p) {
        Some(k) => fenced[k],
        None => false,
    }
}

/// Every line break of `s[a..e]` outside the opaque regions is followed by
/// a line that is not empty and does not lie in a fenced block: a pair
/// stays within its paragraph and never spans a fence.
pub open spec fn ctx_para_ok(
    s: Seq<u8>,
    eol: u8,
    spans: Seq<Span>,
    fenced: Seq<bool>,
    a: int,
    e: int,
) -> bool {
    forall|i: int|
        a <= i < e && #[trigger] s[i] == eol && cover_index(spans, i) is None ==> i + 1 < s.len()
            && s[i + 1] != eol && !in_fence(spans, fenced, i + 1)
}

/// What a context-aware symmetric match is: the span `[start, end)` lies
/// between an unescaped opening run and a closing run of exactly `count`
/// `byte`s, neither run begins inside an opaque region, and the span stays
/// within its paragraph ([`ctx_para_ok`]).
pub open spec fn ctx_sym_match(
    s: Seq<u8>,
    byte: u8,
    count: u32,
    eol: u8,
    escape: u8,
    spans: Seq<Span>,
    fenced: Seq<bool>,
    sp: Span,
) -> bool {
    let a = sp.start as int;
    let e = sp.end as int;
    &&& count <= a <= e < s.len()
    &&& (forall|i: int| a - count <= i < a ==> s[i] == byte)
    &&& s[a] != byte
    &&& !escaped(s, a - count, escape)
    &&& cover_end(spans, a - count) is None
    &&& e + count <= s.len()
    &&& (forall|i: int| e <= i < e + count ==> s[i] == byte)
    &&& (e + count == s.len() || s[e + count] != byte)
    &&& cover_end(spans, e) is None
    &&& ctx_para_ok(s, eol, spans, fenced, a, e)
}

/// What a context-aware asymmetric match is: the span `[start, end)`
/// follows an unescaped run of exactly `count` `open`s, `end` holds a
/// `close` byte, neither the run nor the close lies in an opaque region,
/// and the span stays within its paragraph ([`ctx_para_ok`]).
pub open spec fn ctx_asym_match(
    s: Seq<u8>,
    open: u8,
    close: u8,
    count: u32,
    eol: u8,
    escape: u8,
    spans: Seq<Span>,
    fenced: Seq<bool>,
    sp: Span,
) -> bool {
    let a = sp.start as int;
    let e = sp.end as int;
    &&& count <= a <= e < s.len()
    &&& (forall|i: int| a - count <= i < a ==> s[i] == open)
    &&& s[a] != open
    &&& !escaped(s, a - count, escape)
    &&& cover_end(spans, a - count) is None
    &&& s[e] == close
    &&& cover_end(spans, e) is None
    &&& ctx_para_ok(s, eol, spans, fenced, a, e)
}

/// Every position of the region that covers `p` is covered.
proof fn lemma_cover_range(spans: Seq<Span>, p: int)
    ensures
        cover_index(spans, p) matches Some(k) ==> 0 <= k < spans.len() && spans[k].start <= p
            < spans[k].end,
        cover_index(spans, p) matches Some(k) ==> forall|i: int|
            spans[k].start <= i < spans[k].end ==> #[trigger] cover_index(spans, i) is Some,
{
    if let Some(k) = cover_index(spans, p) {
        assert forall|i: int| spans[k].start <= i < spans[k].end implies #[trigger] cover_index(
            spans,
            i,
        ) is Some by {
            assert(spans[k].start <= i < spans[k].end);
        }
    }
}

proof fn lemma_ctx_sym_close_match(
    s: Seq<u8>,
    byte: u8,
    count: u32,
    eol: u8,
    spans: Seq<Span>,
    fenced: Seq<bool>,
    j: int,
)
    requires
        0 <= j <= s.len(),
    ensures
        ctx_sym_close(s, byte, count, eol, spans, fenced, j) matches Some((q, t)) ==> {
            &&& j <= q < t <= s.len()
            &&& t - q == count
            &&& (forall|i: int| q <= i < t ==> s[i] == byte)
            &&& (t == s.len() || s[t] != byte)
            &&& cover_end(spans, q) is None
            &&& ctx_para_ok(s, eol, spans, fenced, j, q)
        },
    decreases s.len() - j,
{
    lemma_find2(s, j, byte, eol);
    match find2(s, j, byte, eol) {
        None => {},
        Some(q) => {
            lemma_run_end(s, q, byte);
            if s[q] == eol {
                lemma_cover_range(spans, q + 1);
                match resume_after_eol(s, eol, spans, fenced, q) {
                    Some(nj) => if q < nj <= s.len() {
                        lemma_ctx_sym_close_match(s, byte, count, eol, spans, fenced, nj);
                    },
                    None => {},
                }
            } else {
                lemma_cover_range(spans, q);
                match cover_end(spans, q) {
                    Some(ce) => if q < ce <= s.len() {
                        lemma_ctx_sym_close_match(s, byte, count, eol, spans, fenced, ce);
                    },
                    None => {
                        let t = run_end(s, q, byte);
                        if t - q != count {
                            lemma_ctx_sym_close_match(s, byte, count, eol, spans, fenced, t);
                        }
                    },
                }
            }
        },
    }
}

proof fn lemma_ctx_asym_close_match(s: Seq<u8>, close: u8, eol: u8, spans: Seq<Span>, fenced: Seq<bool>, j: int)
    requires
        0 <= j <= s.len(),
    ensures
        ctx_asym_close(s, close, eol, spans, fenced, j) matches Some(q) ==> j <= q < s.len() && s[q]
            == close && cover_end(spans, q) is None && ctx_para_ok(s, eol, spans, fenced, j, q),
    decreases s.len() - j,
{
    lemma_find2(s, j, close, eol);
    match find2(s, j, close, eol) {
        None => {},
        Some(q) => {
            if s[q] == eol {
                lemma_cover_range(spans, q + 1);
                match resume_after_eol(s, eol, spans, fenced, q) {
                    Some(nj) => if q < nj <= s.len() {
                        lemma_ctx_asym_close_match(s, close, eol, spans, fenced, nj);
                    },
                    None => {},
                }
            } else {
                lemma_cover_range(spans, q);
                match cover_end(spans, q) {
                    Some(ce) => if q < ce <= s.len() {
                        lemma_ctx_asym_close_match(s, close, eol, spans, fenced, ce);
                    },
                    None => {},
                }
            }
        },
    }
}

/// A context-aware symmetric step moves forward and yields a
/// [`ctx_sym_match`]: no candidate inside an opaque region opens or closes
/// a match.
pub proof fn lemma_ctx_sym_step(sc: ContextSymScan)
    requires
        0 <= sc.pos,
        sc.src.len() <= u32::MAX,
    ensures
        sc.step() matches Some((sp, np)) ==> {
            &&& sc.pos < np <= sc.src.len()
            &&& sc.pos + sc.count <= sp.start
            &&& sp.end + sc.count == np
            &&& ctx_sym_match(sc.src, sc.byte, sc.count, sc.eol, sc.escape, sc.spans, sc.fenced, sp)
        },
    decreases sc.src.len() - sc.pos,
{
    let s = sc.src;
    lemma_find1(s, sc.pos, sc.byte);
    match find1(s, sc.pos, sc.byte) {
        None => {},
        Some(p) => {
            lemma_run_end(s, p, sc.byte);
            match cover_end(sc.spans, p) {
                Some(ce) => if p < ce <= s.len() {
                    lemma_ctx_sym_step(sc.at(ce));
                },
                None => if escaped(s, p, sc.escape) {
                    lemma_ctx_sym_step(sc.at(p + 1));
                } else {
                    let end = run_end(s, p, sc.byte);
                    if end - p != sc.count {
                        lemma_ctx_sym_step(sc.at(end));
                    } else {
                        lemma_ctx_sym_close_match(s, sc.byte, sc.count, sc.eol, sc.spans, sc.fenced, end);
                        match ctx_sym_close(s, sc.byte, sc.count, sc.eol, sc.spans, sc.fenced, end) {
                            Some((q, t)) => {
                                lemma_find2(s, end, sc.byte, sc.eol);
                            },
                            None => {
                                lemma_ctx_sym_step(sc.at(end));
                            },
                        }
                    }
                },
            }
        },
    }
}

/// A context-aware asymmetric step moves forward and yields a
/// [`ctx_asym_match`].
pub proof fn lemma_ctx_asym_step(sc: ContextAsymScan)
    requires
        0 <= sc.pos,
        sc.src.len() <= u32::MAX,
    ensures
        sc.step() matches Some((sp, np)) ==> {
            &&& sc.pos < np <= sc.src.len()
            &&& sc.pos + sc.count <= sp.start
            &&& sp.end + 1 == np
            &&& ctx_asym_match(sc.src, sc.open, sc.close, sc.count, sc.eol, sc.escape, sc.spans, sc.fenced, sp)
        },
    decreases sc.src.len() - sc.pos,
{
    let s = sc.src;
    lemma_find1(s, sc.pos, sc.open);
    match find1(s, sc.pos, sc.open) {
        None => {},
        Some(p) => {
            lemma_run_end(s, p, sc.open);
            match cover_end(sc.spans, p) {
                Some(ce) => if p < ce <= s.len() {
                    lemma_ctx_asym_step(sc.at(ce));
                },
                None => if escaped(s, p, sc.escape) {
                    lemma_ctx_asym_step(sc.at(p + 1));
                } else {
                    let end = run_end(s, p, sc.open);
                    if end - p != sc.count {
                        lemma_ctx_asym_step(sc.at(end));
                    } else {
                        lemma_ctx_asym_close_match(s, sc.close, sc.eol, sc.spans, sc.fenced, end);
                        if ctx_asym_close(s, sc.close, sc.eol, sc.spans, sc.fenced, end) is None {
                            lemma_ctx_asym_step(sc.at(end));
                        }
                    }
                },
            }
        },
    }
}

/// From `j`, the context-aware close search finds the first whole run of
/// exactly `count` `byte`s at `q` when nothing from `j` through `q` is
/// covered, the paragraph goes on to it, and no run of that length comes
/// first.
proof fn lemma_ctx_sym_close_finds(
    s: Seq<u8>,
    byte: u8,
    count: u32,
    eol: u8,
    spans: Seq<Span>,
    fenced: Seq<bool>,
    j: int,
    q: int,
)
    requires
        0 <= j <= q,
        count > 0,
        byte != eol,
        run_of(s, byte, q, count as int),
        j < q ==> s[q - 1] != byte,
        no_blank_line(s, eol, j, q),
        forall|i: int|
            j <= i < q && s[i] == byte && (i == j || s[i - 1] != byte) ==> #[trigger] run_end(
                s,
                i,
                byte,
            ) - i != count,
        forall|i: int| j <= i <= q ==> #[trigger] cover_index(spans, i) is None,
    ensures
        ctx_sym_close(s, byte, count, eol, spans, fenced, j) == Some((q, q + count)),
    decreases q - j,
{
    lemma_find2(s, j, byte, eol);
    assert(s[q] == byte);
    let r = find2(s, j, byte, eol)->0;
    assert(r <= q);
    lemma_run_end(s, r, byte);
    assert(cover_index(spans, r) is None);
    if s[r] == eol {
        assert(s[r] == eol);
        assert(cover_index(spans, r + 1) is None);
        lemma_ctx_sym_close_finds(s, byte, count, eol, spans, fenced, r + 1, q);
    } else if r == q {
        lemma_run_of(s, byte, q, count as int);
    } else {
        let t = run_end(s, r, byte);
        if r > j {
            assert(s[r - 1] != byte);
        }
        assert(t - r != count);
        if t > q {
            assert(s[q - 1] == byte);
        }
        assert(t != q);
        lemma_ctx_sym_close_finds(s, byte, count, eol, spans, fenced, t, q);
    }
}

/// Completeness of the context-aware symmetric scan: as for the
/// context-free scan, when no byte from the opening run through the start of
/// the closing run is covered by an opaque region, the scan yields the span
/// between the two runs and resumes after the closing run.
pub proof fn lemma_ctx_sym_complete(sc: ContextSymScan, q: int)
    requires
        0 <= sc.pos,
        sc.count > 0,
        sc.byte != sc.eol,
        run_of(sc.src, sc.byte, sc.pos, sc.count as int),
        !escaped(sc.src, sc.pos, sc.escape),
        sc.pos + sc.count <= q,
        run_of(sc.src, sc.byte, q, sc.count as int),
        sc.src[q - 1] != sc.byte,
        no_blank_line(sc.src, sc.eol, sc.pos + sc.count, q),
        no_run_of_len(sc.src, sc.byte, sc.count as int, sc.pos + sc.count, q),
        forall|i: int| sc.pos <= i <= q ==> #[trigger] cover_index(sc.spans, i) is None,
    ensures
        sc.step() == Some((Span::mk(sc.pos + sc.count, q), q + sc.count)),
{
    let s = sc.src;
    let p = sc.pos;
    let a = p + sc.count;
    assert(s[p] == sc.byte);
    assert(cover_index(sc.spans, p) is None);
    lemma_find1_is(s, p, sc.byte, p);
    lemma_run_of(s, sc.byte, p, sc.count as int);
    lemma_ctx_sym_close_finds(s, sc.byte, sc.count, sc.eol, sc.spans, sc.fenced, a, q);
}

/// From `j`, the context-aware close search finds the first `close` at `q`
/// when nothing from `j` through `q` is covered and the paragraph goes on
/// to it.
proof fn lemma_ctx_asym_close_finds(
    s: Seq<u8>,
    close: u8,
    eol: u8,
    spans: Seq<Span>,
    fenced: Seq<bool>,
    j: int,
    q: int,
)
    requires
        0 <= j <= q < s.len(),
        close != eol,
        s[q] == close,
        forall|i: int| j <= i < q ==> #[trigger] s[i] != close,
        no_blank_line(s, eol, j, q),
        forall|i: int| j <= i <= q ==> #[trigger] cover_index(spans, i) is None,
    ensures
        ctx_asym_close(s, close, eol, spans, fenced, j) == Some(q),
    decreases q - j,
{
    lemma_find2(s, j, close, eol);
    let r = find2(s, j, close, eol)->0;
    assert(r <= q);
    assert(cover_index(spans, r) is None);
    if s[r] == eol {
        assert(s[r] == eol);
        assert(cover_index(spans, r + 1) is None);
        lemma_ctx_asym_close_finds(s, close, eol, spans, fenced, r + 1, q);
    }
}

/// Completeness of the context-aware asymmetric scan: from an unescaped run
/// of exactly `count` `open`s at the scan position, when a `close` at `q` is
/// the first after the run, no line in between is followed by an empty
/// line, and nothing from the run through `q` is covered, the scan yields
/// the span up to `q` and resumes after it.
pub proof fn lemma_ctx_asym_complete(sc: ContextAsymScan, q: int)
    requires
        0 <= sc.pos,
        sc.count > 0,
        sc.close != sc.eol,
        run_of(sc.src, sc.open, sc.pos, sc.count as int),
        !escaped(sc.src, sc.pos, sc.escape),
        sc.pos + sc.count <= q < sc.src.len(),
        sc.src[q] == sc.close,
        forall|i: int| sc.pos + sc.count <= i < q ==> #[trigger] sc.src[i] != sc.close,
        no_blank_line(sc.src, sc.eol, sc.pos + sc.count, q),
        forall|i: int| sc.pos <= i <= q ==> #[trigger] cover_index(sc.spans, i) is None,
    ensures
        sc.step() == Some((Span::mk(sc.pos + sc.count, q), q + 1)),
{
    let s = sc.src;
    assert(s[sc.pos] == sc.open);
    assert(cover_index(sc.spans, sc.pos) is None);
    lemma_find1_is(s, sc.pos, sc.open, sc.pos);
    lemma_run_of(s, sc.open, sc.pos, sc.count as int);
    lemma_ctx_asym_close_finds(s, sc.close, sc.eol, sc.spans, sc.fenced, sc.pos + sc.count, q);
}

/// Every remaining match of a context-aware symmetric scan is a
/// [`ctx_sym_match`] at or after the scan position, and the matches come in
/// source order without overlap.
pub proof fn lemma_ctx_sym_remaining(sc: ContextSymScan)
    requires
        0 <= sc.pos,
        sc.src.len() <= u32::MAX,
    ensures
        forall|i: int|
            0 <= i < sc.remaining().len() ==>
                ctx_sym_match(sc.src, sc.byte, sc.count, sc.eol, sc.escape, sc.spans, sc.fenced, #[trigger] sc.remaining()[i])
                    && sc.pos <= sc.remaining()[i].start,
        forall|i: int|
            0 <= i < sc.remaining().len() - 1 ==>
                #[trigger] sc.remaining()[i].end <= sc.remaining()[i + 1].start,
    decreases sc.src.len() - sc.pos,
{
    lemma_ctx_sym_step(sc);
    match sc.step() {
        None => {},
        Some((it, np)) => {
            if !(np <= sc.pos || np > sc.src.len()) {
                let rest = sc.at(np);
                lemma_ctx_sym_remaining(rest);
                let r = sc.remaining();
                let rr = rest.remaining();
                assert(r == seq![it] + rr);
                assert forall|i: int| 0 <= i < r.len() implies
                    ctx_sym_match(sc.src, sc.byte, sc.count, sc.eol, sc.escape, sc.spans, sc.fenced, #[trigger] r[i])
                        && sc.pos <= r[i].start by {
                    if i > 0 {
                        assert(r[i] == rr[i - 1]);
                    }
                }
                assert forall|i: int| 0 <= i < r.len() - 1 implies #[trigger] r[i].end <= r[i + 1].start by {
                    assert(r[i + 1] == rr[i]);
                    if i > 0 {
                        assert(r[i] == rr[i - 1]);
                    }
                }
            }
        },
    }
}

/// Every remaining match of a context-aware asymmetric scan is a
/// [`ctx_asym_match`] at or after the scan position, and the matches come in
/// source order without overlap.
pub proof fn lemma_ctx_asym_remaining(sc: ContextAsymScan)
    requires
        0 <= sc.pos,
        sc.src.len() <= u32::MAX,
    ensures
        forall|i: int|
            0 <= i < sc.remaining().len() ==>
                ctx_asym_match(sc.src, sc.open, sc.close, sc.count, sc.eol, sc.escape, sc.spans, sc.fenced, #[trigger] sc.remaining()[i])
                    && sc.pos <= sc.remaining()[i].start,
        forall|i: int|
            0 <= i < sc.remaining().len() - 1 ==>
                #[trigger] sc.remaining()[i].end <= sc.remaining()[i + 1].start,
    decreases sc.src.len() - sc.pos,
{
    lemma_ctx_asym_step(sc);
    match sc.step() {
        None => {},
        Some((it, np)) => {
            if !(np <= sc.pos || np > sc.src.len()) {
                let rest = sc.at(np);
                lemma_ctx_asym_remaining(rest);
                let r = sc.remaining();
                let rr = rest.remaining();
                assert(r == seq![it] + rr);
                assert forall|i: int| 0 <= i < r.len() implies
                    ctx_asym_match(sc.src, sc.open, sc.close, sc.count, sc.eol, sc.escape, sc.spans, sc.fenced, #[trigger] r[i])
                        && sc.pos <= r[i].start by {
                    if i > 0 {
                        assert(r[i] == rr[i - 1]);
                    }
                }
                assert forall|i: int| 0 <= i < r.len() - 1 implies #[trigger] r[i].end <= r[i + 1].start by {
                    assert(r[i + 1] == rr[i]);
                    if i > 0 {
                        assert(r[i] == rr[i - 1]);
                    }
                }
            }
        },
    }
}

} // verus!
