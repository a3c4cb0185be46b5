//! [`AsymmetricExactIter`]: asymmetric exact-delimiter standalone iterator.
use vstd::prelude::*;
use crate::search::{find1, lemma_find1, lemma_find1_is, lemma_find2, find_byte, find_byte2};
use crate::span::{Span, MAX_INPUT_LEN};
use super::common::{count_escape, escaped, run_end, lemma_run_end, scan_run, para_find, lemma_para_find, lemma_para_finds};
use super::symmetric::{run_of, lemma_run_of};

verus! {

/// The state of an asymmetric scan: the source, the rule, and the position
/// from which the remaining matches are searched.
pub struct AsymmetricScan {
    pub src: Seq<u8>,
    pub open: u8,
    pub close: u8,
    pub count: u32,
    pub eol: u8,
    pub escape: u8,
    pub pos: int,
}

impl AsymmetricScan {
    /// The same scan resumed at `pos`.
    pub open spec fn at(self, pos: int) -> AsymmetricScan {
        AsymmetricScan { pos, ..self }
    }

    /// The next match at or after `pos`, with the position after it.
    ///
    /// The first `open` at or after `pos` is a candidate. An escaped
    /// candidate is skipped by one byte; otherwise its run of `open`s must be
    /// exactly `count` long (else it is skipped), and the close is searched
    /// with [`para_find`] from the end of the run. A match yields the inner
    /// span and resumes after the `close` byte; a missing close resumes after
    /// the opening run.
    pub open spec fn step(self) -> Option<(Span, int)>
        decreases self.src.len() - self.pos,
    {
        let s = self.src;
        if self.pos < 0 {
            None
        } else {
            match find1(s, self.pos, self.open) {
                None => None,
                Some(p) => {
                    proof {
                        lemma_find1(s, self.pos, self.open);
                        lemma_run_end(s, p, self.open);
                    }
                    if escaped(s, p, self.escape) {
                        self.at(p + 1).step()
                    } else {
                        let end = run_end(s, p, self.open);
                        if end - p != self.count {
                            self.at(end).step()
                        } else {
                            match para_find(s, self.close, self.eol, end) {
                                Some(q) => Some((Span::mk(end, q), q + 1)),
                                None => self.at(end).step(),
                            }
                        }
                    }
                },
            }
        }
    }

    /// Every match at or after `pos`, in order.
    pub open spec fn remaining(self) -> Seq<Span>
        decreases self.src.len() - self.pos,
    {
        match self.step() {
            None => Seq::empty(),
            Some((sp, np)) => if np <= self.pos || np > self.src.len() {
                Seq::empty()
            } else {
                seq![sp] + self.at(np).remaining()
            },
        }
    }
}

/// What an asymmetric match is: the span `[start, end)` is preceded by an
/// unescaped run of exactly `count` `open`s, `end` holds the first `close`
/// byte after the run, and no line inside the span is empty.
pub open spec fn asym_match(
    s: Seq<u8>,
    open: u8,
    close: u8,
    count: u32,
    eol: u8,
    escape: u8,
    sp: Span,
) -> bool {
    let a = sp.start as int;
    let e = sp.end as int;
    &&& count <= a <= e < s.len()
    &&& (forall|i: int| a - count <= i < a ==> s[i] == open)
    &&& s[a] != open
    &&& !escaped(s, a - count, escape)
    &&& s[e] == close
    &&& (forall|i: int| a <= i < e ==> #[trigger] s[i] != close)
    &&& (forall|i: int| a <= i < e && #[trigger] s[i] == eol ==> i + 1 < s.len() && s[i + 1] != eol)
}

/// Completeness of the asymmetric scan: from an unescaped run of exactly
/// `count` `open`s at the scan position, when a `close` at `q` is the first
/// after the run and no line in between is followed by an empty line, the
/// scan yields the span up to `q` and resumes after it.
pub proof fn lemma_asym_complete(sc: AsymmetricScan, q: int)
    requires
        0 <= sc.pos,
        sc.count > 0,
        sc.close != sc.eol,
        run_of(sc.src, sc.open, sc.pos, sc.count as int),
        !escaped(sc.src, sc.pos, sc.escape),
        sc.pos + sc.count <= q < sc.src.len(),
        sc.src[q] == sc.close,
        forall|i: int| sc.pos + sc.count <= i < q ==> #[trigger] sc.src[i] != sc.close,
        forall|i: int|
            sc.pos + sc.count <= i < q && #[trigger] sc.src[i] == sc.eol ==> i + 1 < sc.src.len()
                && sc.src[i + 1] != sc.eol,
    ensures
        sc.step() == Some((Span::mk(sc.pos + sc.count, q), q + 1)),
{
    let s = sc.src;
    assert(s[sc.pos] == sc.open);
    lemma_find1_is(s, sc.pos, sc.open, sc.pos);
    lemma_run_of(s, sc.open, sc.pos, sc.count as int);
    lemma_para_finds(s, sc.close, sc.eol, sc.pos + sc.count, q);
}

/// With no `open` between the scan position and `p`, scanning from the
/// position and scanning from `p` yield the same.
pub proof fn lemma_asym_skip_to(sc: AsymmetricScan, p: int)
    requires
        0 <= sc.pos <= p,
        forall|i: int| sc.pos <= i < p ==> #[trigger] sc.src[i] != sc.open,
    ensures
        sc.step() == sc.at(p).step(),
    decreases p - sc.pos,
{
    if sc.pos < p {
        if sc.pos < sc.src.len() {
            assert(sc.src[sc.pos] != sc.open);
        }
        lemma_asym_skip_to(sc.at(sc.pos + 1), p);
        assert(find1(sc.src, sc.pos, sc.open) == find1(sc.src, sc.pos + 1, sc.open));
    }
}

/// A step of the scan moves forward and yields an [`asym_match`].
pub proof fn lemma_asym_step(sc: AsymmetricScan)
    requires
        0 <= sc.pos,
        sc.src.len() <= u32::MAX,
    ensures
        sc.step() matches Some((sp, np)) ==> {
            &&& sc.pos < np <= sc.src.len()
            &&& sc.pos + sc.count <= sp.start
            &&& sp.end + 1 == np
            &&& asym_match(sc.src, sc.open, sc.close, sc.count, sc.eol, sc.escape, sp)
        },
    decreases sc.src.len() - sc.pos,
{
    let s = sc.src;
    lemma_find1(s, sc.pos, sc.open);
    match find1(s, sc.pos, sc.open) {
        None => {},
        Some(p) => {
            lemma_run_end(s, p, sc.open);
            if escaped(s, p, sc.escape) {
                lemma_asym_step(sc.at(p + 1));
            } else {
                let end = run_end(s, p, sc.open);
                if end - p != sc.count {
                    lemma_asym_step(sc.at(end));
                } else {
                    lemma_para_find(s, sc.close, sc.eol, end);
                    if para_find(s, sc.close, sc.eol, end) is None {
                        lemma_asym_step(sc.at(end));
                    }
                }
            }
        },
    }
}

/// Every remaining asymmetric match is an [`asym_match`] starting past the
/// scan position, and the matches come in source order without overlap:
/// each `close` byte comes before the next opening run.
pub proof fn lemma_asymmetric_remaining(sc: AsymmetricScan)
    requires
        0 <= sc.pos,
        sc.src.len() <= u32::MAX,
    ensures
        forall|i: int|
            0 <= i < sc.remaining().len() ==> asym_match(
                sc.src,
                sc.open,
                sc.close,
                sc.count,
                sc.eol,
                sc.escape,
                #[trigger] sc.remaining()[i],
            ) && sc.pos + sc.count <= sc.remaining()[i].start,
        forall|i: int|
            0 <= i < sc.remaining().len() - 1 ==> #[trigger] sc.remaining()[i].end + 1
                + sc.count <= sc.remaining()[i + 1].start,
    decreases sc.src.len() - sc.pos,
{
    lemma_asym_step(sc);
    match sc.step() {
        None => {},
        Some((sp, np)) => {
            let rest = sc.at(np);
            lemma_asymmetric_remaining(rest);
            let r = sc.remaining();
            assert(r == seq![sp] + rest.remaining());
            assert forall|i: int| 0 <= i < r.len() implies asym_match(
                sc.src,
                sc.open,
                sc.close,
                sc.count,
                sc.eol,
                sc.escape,
                #[trigger] r[i],
            ) && sc.pos + sc.count <= r[i].start by {
                if i > 0 {
                    assert(r[i] == rest.remaining()[i - 1]);
                }
            }
            assert forall|i: int| 0 <= i < r.len() - 1 implies #[trigger] r[i].end + 1 + sc.count
                <= r[i + 1].start by {
                assert(r[i + 1] == rest.remaining()[i]);
                if i > 0 {
                    assert(r[i] == rest.remaining()[i - 1]);
                }
            }
        },
    }
}

/// The iterator over asymmetric exact-delimiter spans of a byte slice.
///
/// A single streaming scan for `count` consecutive `open` bytes followed by
/// content and then a single `close` byte; the yielded [`Span`] covers the
/// content between them. Matching is paragraph-bounded: a pair may span
/// single `eol`s, but an empty line or the end of input aborts a pending
/// opener. An odd number of `escape` bytes before the opening run
/// suppresses it; the close is found by a plain scan.
pub struct AsymmetricExactIter<'a> {
    src: &'a [u8],
    open: u8,
    close: u8,
    count: u32,
    eol: u8,
    escape: u8,
    pos: usize,
}

impl<'a> View for AsymmetricExactIter<'a> {
    type V = AsymmetricScan;

    closed spec fn view(&self) -> AsymmetricScan {
        AsymmetricScan {
            src: self.src@,
            open: self.open,
            close: self.close,
            count: self.count,
            eol: self.eol,
            escape: self.escape,
            pos: self.pos as int,
        }
    }
}

impl<'a> AsymmetricExactIter<'a> {
    #[verifier::type_invariant]
    spec fn inv(self) -> bool {
        &&& self.pos <= self.src@.len()
        &&& self.src@.len() <= MAX_INPUT_LEN
    }

    /// Create an iterator over asymmetric exact-delimiter spans of `src`
    /// (`open` × `count`, then content, then one `close`; `eol` line
    /// terminator; `escape` prefix byte).
    pub fn new(src: &'a [u8], open: u8, close: u8, count: u32, eol: u8, escape: u8) -> (it: Self)
        requires
            src@.len() <= MAX_INPUT_LEN,
        ensures
            it@ == (AsymmetricScan { src: src@, open, close, count, eol, escape, pos: 0 }),
    {
        AsymmetricExactIter { src, open, close, count, eol, escape, pos: 0 }
    }

    /// The next match: the first of the remaining matches, which are then
    /// the rest; `None` once none remain.
    pub fn next(&mut self) -> (r: Option<Span>)
        ensures
            final(self)@ == old(self)@.at(final(self)@.pos),
            match old(self)@.step() {
                Some((sp, np)) => r == Some(sp) && final(self)@.pos == np,
                None => r is None && final(self)@.remaining() == Seq::<Span>::empty(),
            },
            old(self)@.remaining() == (match r {
                Some(sp) => seq![sp] + final(self)@.remaining(),
                None => Seq::<Span>::empty(),
            }),
            r matches Some(sp) ==> asym_match(
                old(self)@.src,
                old(self)@.open,
                old(self)@.close,
                old(self)@.count,
                old(self)@.eol,
                old(self)@.escape,
                sp,
            ),
    {
        proof {
            use_type_invariant(&*self);
            lemma_asym_step(self@);
        }
        let ghost sc0 = self@;
        let src = self.src;
        let len = src.len();
        let open = self.open;
        let close_b = self.close;
        let count = self.count;
        let eol = self.eol;
        let escape = self.escape;
        loop
            invariant
                self@ == sc0.at(self@.pos),
                sc0 == old(self)@,
                sc0.src == src@,
                len == src@.len() <= MAX_INPUT_LEN,
                open == sc0.open,
                close_b == sc0.close,
                count == sc0.count,
                eol == sc0.eol,
                escape == sc0.escape,
                0 <= self@.pos <= len,
                self@.step() == sc0.step(),
            decreases len - self@.pos,
        {
            proof {
                use_type_invariant(&*self);
                lemma_find1(src@, self@.pos, open);
            }
            let p = match find_byte(src, self.pos, open) {
                Some(p) => p,
                None => {
                    return None;
                },
            };
            if count_escape(src, p, escape) % 2 == 1 {
                self.pos = p + 1;
                continue;
            }
            let (end, c) = scan_run(src, p, open);
            proof {
                lemma_run_end(src@, p as int, open);
            }
            if c != count {
                self.pos = end;
                continue;
            }
            let cs = end;
            let mut j = cs;
            let mut found: Option<usize> = None;
            loop
                invariant_except_break
                    cs <= j <= len,
                    found is None,
                    para_find(src@, close_b, eol, j as int) == para_find(
                        src@,
                        close_b,
                        eol,
                        cs as int,
                    ),
                invariant
                    len == src@.len() <= MAX_INPUT_LEN,
                ensures
                    found == (match para_find(src@, close_b, eol, cs as int) {
                        Some(q) => Some(q as usize),
                        None => None::<usize>,
                    }),
                decreases len - j,
            {
                proof {
                    lemma_find2(src@, j as int, close_b, eol);
                }
                let q = match find_byte2(src, j, close_b, eol) {
                    Some(q) => q,
                    None => {
                        break;
                    },
                };
                if src[q] == eol {
                    if q + 1 >= len || src[q + 1] == eol {
                        break;
                    }
                    j = q + 1;
                    continue;
                }
                found = Some(q);
                break;
            }
            proof {
                lemma_para_find(src@, close_b, eol, cs as int);
            }
            match found {
                Some(cp) => {
                    self.pos = cp + 1;
                    proof {
                        lemma_asym_step(sc0);
                    }
                    return Some(Span::new(cs as u32, cp as u32));
                },
                None => {
                    self.pos = end;
                },
            }
        }
    }
}

} // verus!
