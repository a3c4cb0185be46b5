//! [`SymmetricExactIter`]: symmetric exact-delimiter standalone iterator.
use vstd::prelude::*;
use crate::search::{find1, find2, lemma_find1, lemma_find1_is, lemma_find2, find_byte, find_byte2};
use crate::span::{Span, MAX_INPUT_LEN};
use super::common::{count_escape, escaped, run_end, lemma_run_end, scan_run};

verus! {

/// The state of a symmetric scan: the source, the rule, and the position
/// from which the remaining matches are searched.
pub struct SymmetricScan {
    pub src: Seq<u8>,
    pub byte: u8,
    pub count: u32,
    pub eol: u8,
    pub escape: u8,
    pub pos: int,
}

/// Paragraph-bounded close search from `j`: the first run of exactly `count`
/// `byte`s at or after `j`, as `(run start, run end)`. A single `eol` is
/// ordinary content; an `eol` followed by another `eol` (an empty line) or by
/// the end of input ends the search with no match. Escapes are not checked
/// on close.
pub open spec fn sym_close(s: Seq<u8>, byte: u8, count: u32, eol: u8, j: int) -> Option<(int, int)>
    decreases s.len() - j,
{
    if j < 0 {
        None
    } else {
        match find2(s, j, byte, eol) {
            None => None,
            Some(q) => {
                proof {
                    lemma_find2(s, j, byte, eol);
                    lemma_run_end(s, q, byte);
                }
                if s[q] == eol {
                    if q + 1 >= s.len() || s[q + 1] == eol {
                        None
                    } else {
                        sym_close(s, byte, count, eol, q + 1)
                    }
                } else {
                    let t = run_end(s, q, byte);
                    if t - q == count {
                        Some((q, t))
                    } else {
                        sym_close(s, byte, count, eol, t)
                    }
                }
            },
        }
    }
}

impl SymmetricScan {
    /// The same scan resumed at `pos`.
    pub open spec fn at(self, pos: int) -> SymmetricScan {
        SymmetricScan { pos, ..self }
    }

    /// The next match at or after `pos`, with the position after it.
    ///
    /// The first `byte` at or after `pos` is a candidate opener. An escaped
    /// candidate is skipped by one byte; otherwise its whole run is read and
    /// must be exactly `count` long (else it is skipped); then the close is
    /// searched with [`sym_close`] from the end of the run. A match yields the
    /// inner span and resumes after the closing run; a missing close resumes
    /// after the opening run.
    pub open spec fn step(self) -> Option<(Span, int)>
        decreases self.src.len() - self.pos,
    {
        let s = self.src;
        if self.pos < 0 {
            None
        } else {
            match find1(s, self.pos, self.byte) {
                None => None,
                Some(p) => {
                    proof {
                        lemma_find1(s, self.pos, self.byte);
                        lemma_run_end(s, p, self.byte);
                    }
                    if escaped(s, p, self.escape) {
                        self.at(p + 1).step()
                    } else {
                        let end = run_end(s, p, self.byte);
                        if end - p != self.count {
                            self.at(end).step()
                        } else {
                            match sym_close(s, self.byte, self.count, self.eol, end) {
                                Some((q, t)) => Some((Span::mk(end, q), t)),
                                None => self.at(end).step(),
                            }
                        }
                    }
                },
            }
        }
    }

    /// Every match at or after `pos`, in order.
    pub open spec fn remaining(self) -> Seq<Span>
        decreases self.src.len() - self.pos,
    {
        match self.step() {
            None => Seq::empty(),
            Some((sp, np)) => if np <= self.pos || np > self.src.len() {
                Seq::empty()
            } else {
                seq![sp] + self.at(np).remaining()
            },
        }
    }
}

/// What a symmetric match is: the span `[start, end)` is preceded by an
/// unescaped run of exactly `count` `byte`s and followed by a run of exactly
/// `count` `byte`s, no line inside it is empty (every `eol` in
/// `[start, end)` is followed by a non-`eol` byte), and (when `byte` is not
/// `eol`) no run of `byte`s inside it is exactly `count` long.
pub open spec fn sym_match(s: Seq<u8>, byte: u8, count: u32, eol: u8, escape: u8, sp: Span) -> bool {
    let a = sp.start as int;
    let e = sp.end as int;
    &&& count <= a <= e < s.len()
    &&& (forall|i: int| a - count <= i < a ==> s[i] == byte)
    &&& s[a] != byte
    &&& !escaped(s, a - count, escape)
    &&& e + count <= s.len()
    &&& (forall|i: int| e <= i < e + count ==> s[i] == byte)
    &&& (e + count == s.len() || s[e + count] != byte)
    &&& (forall|i: int| a <= i < e && #[trigger] s[i] == eol ==> i + 1 < s.len() && s[i + 1] != eol)
    &&& (byte != eol ==> forall|i: int|
        a < i < e && s[i] == byte && s[i - 1] != byte ==> #[trigger] run_end(s, i, byte) - i
            != count)
}

proof fn lemma_sym_close(s: Seq<u8>, byte: u8, count: u32, eol: u8, j: int)
    requires
        0 <= j <= s.len(),
    ensures
        sym_close(s, byte, count, eol, j) matches Some((q, t)) ==> {
            &&& j <= q < t <= s.len()
            &&& t - q == count
            &&& (forall|i: int| q <= i < t ==> s[i] == byte)
            &&& (t == s.len() || s[t] != byte)
            &&& (forall|i: int| j <= i < q && #[trigger] s[i] == eol ==> i + 1 < s.len() && s[i + 1] != eol)
            &&& (byte != eol ==> forall|i: int|
                j <= i < q && s[i] == byte && (i == j || s[i - 1] != byte) ==> #[trigger] run_end(
                    s,
                    i,
                    byte,
                ) - i != count)
        },
    decreases s.len() - j,
{
    lemma_find2(s, j, byte, eol);
    match find2(s, j, byte, eol) {
        None => {},
        Some(q) => {
            lemma_run_end(s, q, byte);
            if s[q] == eol {
                if !(q + 1 >= s.len() || s[q + 1] == eol) {
                    lemma_sym_close(s, byte, count, eol, q + 1);
                }
            } else {
                let t = run_end(s, q, byte);
                if t - q != count {
                    lemma_sym_close(s, byte, count, eol, t);
                }
            }
        },
    }
}

/// A step of the scan moves forward and yields a [`sym_match`].
pub proof fn lemma_sym_step(sc: SymmetricScan)
    requires
        0 <= sc.pos,
        sc.src.len() <= u32::MAX,
    ensures
        sc.step() matches Some((sp, np)) ==> {
            &&& sc.pos < np <= sc.src.len()
            &&& sc.pos + sc.count <= sp.start
            &&& sp.end + sc.count == np
            &&& sym_match(sc.src, sc.byte, sc.count, sc.eol, sc.escape, sp)
        },
    decreases sc.src.len() - sc.pos,
{
    let s = sc.src;
    lemma_find1(s, sc.pos, sc.byte);
    match find1(s, sc.pos, sc.byte) {
        None => {},
        Some(p) => {
            lemma_run_end(s, p, sc.byte);
            if escaped(s, p, sc.escape) {
                lemma_sym_step(sc.at(p + 1));
            } else {
                let end = run_end(s, p, sc.byte);
                if end - p != sc.count {
                    lemma_sym_step(sc.at(end));
                } else {
                    lemma_sym_close(s, sc.byte, sc.count, sc.eol, end);
                    match sym_close(s, sc.byte, sc.count, sc.eol, end) {
                        Some((q, t)) => {
                            lemma_find2(s, end, sc.byte, sc.eol);
                        },
                        None => {
                            lemma_sym_step(sc.at(end));
                        },
                    }
                }
            }
        },
    }
}

/// `s[q..q + n]` is a whole run of `b`: `n` of them, and no `b` right after.
pub open spec fn run_of(s: Seq<u8>, b: u8, q: int, n: int) -> bool {
    &&& 0 <= q
    &&& q + n <= s.len()
    &&& forall|i: int| q <= i < q + n ==> s[i] == b
    &&& (q + n == s.len() || s[q + n] != b)
}

/// No line of `s[a..q]` is followed by an empty line: every `eol` there is
/// followed by a byte other than `eol`.
pub open spec fn no_blank_line(s: Seq<u8>, eol: u8, a: int, q: int) -> bool {
    forall|i: int| a <= i < q && #[trigger] s[i] == eol ==> i + 1 < s.len() && s[i + 1] != eol
}

/// No run of `b` that starts in `s[a..q]` is exactly `n` long.
pub open spec fn no_run_of_len(s: Seq<u8>, b: u8, n: int, a: int, q: int) -> bool {
    forall|i: int|
        a <= i < q && s[i] == b && s[i - 1] != b ==> #[trigger] run_end(s, i, b) - i != n
}

/// A whole run of `n` `b`s ends where it is counted to.
pub proof fn lemma_run_of(s: Seq<u8>, b: u8, q: int, n: int)
    requires
        run_of(s, b, q, n),
        0 <= n,
    ensures
        run_end(s, q, b) == q + n,
    decreases n,
{
    if n > 0 {
        assert(s[q] == b);
        lemma_run_of(s, b, q + 1, n - 1);
    }
}

/// From `j`, the close search finds the first whole run of exactly `count`
/// `byte`s at `q` when the paragraph goes on to it and no run of that length
/// comes first.
proof fn lemma_sym_close_finds(s: Seq<u8>, byte: u8, count: u32, eol: u8, j: int, q: int)
    requires
        0 <= j <= q,
        count > 0,
        byte != eol,
        run_of(s, byte, q, count as int),
        j < q ==> s[q - 1] != byte,
        no_blank_line(s, eol, j, q),
        forall|i: int|
            j <= i < q && s[i] == byte && (i == j || s[i - 1] != byte) ==> #[trigger] run_end(
                s,
                i,
                byte,
            ) - i != count,
    ensures
        sym_close(s, byte, count, eol, j) == Some((q, q + count)),
    decreases q - j,
{
    lemma_find2(s, j, byte, eol);
    assert(s[q] == byte);
    let r = find2(s, j, byte, eol)->0;
    assert(r <= q);
    lemma_run_end(s, r, byte);
    if s[r] == eol {
        assert(s[r] == eol);
        lemma_sym_close_finds(s, byte, count, eol, r + 1, q);
    } else if r == q {
        lemma_run_of(s, byte, q, count as int);
    } else {
        let t = run_end(s, r, byte);
        if r > j {
            assert(s[r - 1] != byte);
        }
        assert(t - r != count);
        if t > q {
            assert(s[q - 1] == byte);
        }
        assert(t != q);
        lemma_sym_close_finds(s, byte, count, eol, t, q);
    }
}

/// Completeness of the symmetric scan: from an unescaped opening run of
/// exactly `count` `byte`s at the scan position, when a whole run of exactly
/// `count` `byte`s at `q` follows within the paragraph and no run of that
/// length lies between them, the scan yields the span between the two runs
/// and resumes after the closing run. Runs of other lengths in between do
/// not stop it.
pub proof fn lemma_sym_complete(sc: SymmetricScan, q: int)
    requires
        0 <= sc.pos,
        sc.count > 0,
        sc.byte != sc.eol,
        run_of(sc.src, sc.byte, sc.pos, sc.count as int),
        !escaped(sc.src, sc.pos, sc.escape),
        sc.pos + sc.count <= q,
        run_of(sc.src, sc.byte, q, sc.count as int),
        sc.src[q - 1] != sc.byte,
        no_blank_line(sc.src, sc.eol, sc.pos + sc.count, q),
        no_run_of_len(sc.src, sc.byte, sc.count as int, sc.pos + sc.count, q),
    ensures
        sc.step() == Some((Span::mk(sc.pos + sc.count, q), q + sc.count)),
{
    let s = sc.src;
    let p = sc.pos;
    let a = p + sc.count;
    assert(s[p] == sc.byte);
    lemma_find1_is(s, p, sc.byte, p);
    lemma_run_of(s, sc.byte, p, sc.count as int);
    lemma_sym_close_finds(s, sc.byte, sc.count, sc.eol, a, q);
}

/// With no `byte` between the scan position and `p`, scanning from the
/// position and scanning from `p` yield the same.
pub proof fn lemma_sym_skip_to(sc: SymmetricScan, p: int)
    requires
        0 <= sc.pos <= p,
        forall|i: int| sc.pos <= i < p ==> #[trigger] sc.src[i] != sc.byte,
    ensures
        sc.step() == sc.at(p).step(),
    decreases p - sc.pos,
{
    if sc.pos < p {
        if sc.pos < sc.src.len() {
            assert(sc.src[sc.pos] != sc.byte);
        }
        lemma_sym_skip_to(sc.at(sc.pos + 1), p);
        assert(find1(sc.src, sc.pos, sc.byte) == find1(sc.src, sc.pos + 1, sc.byte));
    }
}

/// Every remaining match of a symmetric scan is a [`sym_match`] starting
/// past the scan position, and the matches come in source order without
/// overlap: each closing run ends before the next opening run begins.
pub proof fn lemma_symmetric_remaining(sc: SymmetricScan)
    requires
        0 <= sc.pos,
        sc.src.len() <= u32::MAX,
    ensures
        forall|i: int|
            0 <= i < sc.remaining().len() ==> sym_match(
                sc.src,
                sc.byte,
                sc.count,
                sc.eol,
                sc.escape,
                #[trigger] sc.remaining()[i],
            ) && sc.pos + sc.count <= sc.remaining()[i].start,
        forall|i: int|
            0 <= i < sc.remaining().len() - 1 ==> #[trigger] sc.remaining()[i].end + sc.count
                + sc.count <= sc.remaining()[i + 1].start,
    decreases sc.src.len() - sc.pos,
{
    lemma_sym_step(sc);
    match sc.step() {
        None => {},
        Some((sp, np)) => {
            let rest = sc.at(np);
            lemma_symmetric_remaining(rest);
            let r = sc.remaining();
            assert(r == seq![sp] + rest.remaining());
            assert forall|i: int| 0 <= i < r.len() implies sym_match(
                sc.src,
                sc.byte,
                sc.count,
                sc.eol,
                sc.escape,
                #[trigger] r[i],
            ) && sc.pos + sc.count <= r[i].start by {
                if i > 0 {
                    assert(r[i] == rest.remaining()[i - 1]);
                }
            }
            assert forall|i: int| 0 <= i < r.len() - 1 implies #[trigger] r[i].end + sc.count
                + sc.count <= r[i + 1].start by {
                assert(r[i + 1] == rest.remaining()[i]);
                if i > 0 {
                    assert(r[i] == rest.remaining()[i - 1]);
                }
            }
        },
    }
}

/// The iterator over symmetric exact-delimiter spans of a byte slice.
///
/// A single streaming scan: both the opening and the closing run must
/// consist of exactly `count` consecutive `byte`s; the yielded [`Span`]
/// covers the content between them. Matching is paragraph-bounded: a pair
/// may span single `eol`s, but an empty line or the end of input aborts a
/// pending opener. An odd number of `escape` bytes before the opening run
/// suppresses it; the close is found by a plain scan.
pub struct SymmetricExactIter<'a> {
    src: &'a [u8],
    byte: u8,
    count: u32,
    eol: u8,
    escape: u8,
    pos: usize,
}

impl<'a> View for SymmetricExactIter<'a> {
    type V = SymmetricScan;

    closed spec fn view(&self) -> SymmetricScan {
        SymmetricScan {
            src: self.src@,
            byte: self.byte,
            count: self.count,
            eol: self.eol,
            escape: self.escape,
            pos: self.pos as int,
        }
    }
}

impl<'a> SymmetricExactIter<'a> {
    #[verifier::type_invariant]
    spec fn inv(self) -> bool {
        &&& self.pos <= self.src@.len()
        &&& self.src@.len() <= MAX_INPUT_LEN
    }

    /// Create an iterator over symmetric exact-delimiter spans of `src`
    /// (`byte` × `count` on both sides, `eol` line terminator, `escape`
    /// prefix byte).
    pub fn new(src: &'a [u8], byte: u8, count: u32, eol: u8, escape: u8) -> (it: Self)
        requires
            src@.len() <= MAX_INPUT_LEN,
        ensures
            it@ == (SymmetricScan { src: src@, byte, count, eol, escape, pos: 0 }),
    {
        SymmetricExactIter { src, byte, count, eol, escape, pos: 0 }
    }

    /// The next match: the first of the remaining matches, which are then
    /// the rest; `None` once none remain.
    pub fn next(&mut self) -> (r: Option<Span>)
        ensures
            final(self)@ == old(self)@.at(final(self)@.pos),
            match old(self)@.step() {
                Some((sp, np)) => r == Some(sp) && final(self)@.pos == np,
                None => r is None && final(self)@.remaining() == Seq::<Span>::empty(),
            },
            old(self)@.remaining() == (match r {
                Some(sp) => seq![sp] + final(self)@.remaining(),
                None => Seq::<Span>::empty(),
            }),
            r matches Some(sp) ==> sym_match(
                old(self)@.src,
                old(self)@.byte,
                old(self)@.count,
                old(self)@.eol,
                old(self)@.escape,
                sp,
            ),
    {
        proof {
            use_type_invariant(&*self);
            lemma_sym_step(self@);
        }
        let ghost sc0 = self@;
        let src = self.src;
        let len = src.len();
        let byte = self.byte;
        let count = self.count;
        let eol = self.eol;
        let escape = self.escape;
        loop
            invariant
                self@ == sc0.at(self@.pos),
                sc0 == old(self)@,
                sc0.src == src@,
                len == src@.len() <= MAX_INPUT_LEN,
                byte == sc0.byte,
                count == sc0.count,
                eol == sc0.eol,
                escape == sc0.escape,
                0 <= self@.pos <= len,
                self@.step() == sc0.step(),
            decreases len - self@.pos,
        {
            proof {
                use_type_invariant(&*self);
                lemma_find1(src@, self@.pos, byte);
            }
            let p = match find_byte(src, self.pos, byte) {
                Some(p) => p,
                None => {
                    return None;
                },
            };
            if count_escape(src, p, escape) % 2 == 1 {
                self.pos = p + 1;
                continue;
            }
            let (end, c) = scan_run(src, p, byte);
            proof {
                lemma_run_end(src@, p as int, byte);
            }
            if c != count {
                self.pos = end;
                continue;
            }
            let cs = end;
            let mut j = cs;
            let mut close: Option<(usize, usize)> = None;
            loop
                invariant_except_break
                    cs <= j <= len,
                    close is None,
                    sym_close(src@, byte, count, eol, j as int) == sym_close(
                        src@,
                        byte,
                        count,
                        eol,
                        cs as int,
                    ),
                invariant
                    len == src@.len() <= MAX_INPUT_LEN,
                ensures
                    close == (match sym_close(src@, byte, count, eol, cs as int) {
                        Some((q, t)) => Some((q as usize, t as usize)),
                        None => None::<(usize, usize)>,
                    }),
                decreases len - j,
            {
                proof {
                    lemma_find2(src@, j as int, byte, eol);
                }
                let q = match find_byte2(src, j, byte, eol) {
                    Some(q) => q,
                    None => {
                        break;
                    },
                };
                if src[q] == eol {
                    if q + 1 >= len || src[q + 1] == eol {
                        break;
                    }
                    j = q + 1;
                    continue;
                }
                let (tmp, cc) = scan_run(src, q, byte);
                proof {
                    lemma_run_end(src@, q as int, byte);
                }
                if cc == count {
                    close = Some((q, tmp));
                    break;
                }
                j = tmp;
            }
            proof {
                lemma_sym_close(src@, byte, count, eol, cs as int);
            }
            match close {
                Some((cp, tmp)) => {
                    self.pos = tmp;
                    proof {
                        lemma_sym_step(sc0);
                    }
                    return Some(Span::new(cs as u32, cp as u32));
                },
                None => {
                    self.pos = end;
                },
            }
        }
    }
}

} // verus!
