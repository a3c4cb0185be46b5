//! [`ChainedIter`]: two-part chained delimiter standalone iterator.
use vstd::prelude::*;
use crate::search::{find1, lemma_find1, lemma_find1_is, lemma_find2, find_byte, find_byte2};
use crate::span::{Span, MAX_INPUT_LEN};
use super::common::{count_escape, escaped, para_find, lemma_para_find, lemma_para_finds};

verus! {

/// The state of a chained scan.
pub struct ChainedScan {
    pub src: Seq<u8>,
    pub open1: u8,
    pub close1: u8,
    pub open2: u8,
    pub close2: u8,
    pub prefix: u8,
    pub eol: u8,
    pub escape: u8,
    pub pos: int,
}

impl ChainedScan {
    /// The same scan resumed at `pos`.
    pub open spec fn at(self, pos: int) -> ChainedScan {
        ChainedScan { pos, ..self }
    }

    /// The next chained match at or after `pos` — prefix flag, first and
    /// second component spans — with the position after it.
    ///
    /// Every unescaped `open1` is a candidate; it carries the prefix flag
    /// when an unescaped `prefix` byte stands right before it. The first
    /// component closes at the paragraph's first `close1` after it, which
    /// must be immediately followed by `open2`; the second component closes
    /// at the paragraph's first `close2` after that. A failed candidate is
    /// skipped by one byte; a match resumes after `close2`.
    pub open spec fn step(self) -> Option<((bool, Span, Span), int)>
        decreases self.src.len() - self.pos,
    {
        let s = self.src;
        let len = s.len() as int;
        if self.pos < 0 {
            None
        } else {
            match find1(s, self.pos, self.open1) {
                None => None,
                Some(p) => {
                    proof {
                        lemma_find1(s, self.pos, self.open1);
                    }
                    if escaped(s, p, self.escape) {
                        self.at(p + 1).step()
                    } else {
                        let is_prefix = p > 0 && s[p - 1] == self.prefix && !escaped(
                            s,
                            p - 1,
                            self.escape,
                        );
                        match para_find(s, self.close1, self.eol, p + 1) {
                            None => self.at(p + 1).step(),
                            Some(c1) => if c1 + 1 >= len || s[c1 + 1] != self.open2 {
                                self.at(p + 1).step()
                            } else {
                                match para_find(s, self.close2, self.eol, c1 + 2) {
                                    None => self.at(p + 1).step(),
                                    Some(c2) => Some(
                                        (
                                            (
                                                is_prefix,
                                                Span::mk(p + 1, c1),
                                                Span::mk(c1 + 2, c2),
                                            ),
                                            c2 + 1,
                                        ),
                                    ),
                                }
                            },
                        }
                    }
                },
            }
        }
    }

    /// Every chained match at or after `pos`, in order.
    pub open spec fn remaining(self) -> Seq<(bool, Span, Span)>
        decreases self.src.len() - self.pos,
    {
        match self.step() {
            None => Seq::empty(),
            Some((it, np)) => if np <= self.pos || np > self.src.len() {
                Seq::empty()
            } else {
                seq![it] + self.at(np).remaining()
            },
        }
    }
}

/// What a chained match is: an unescaped `open1` right before the first
/// span; the first span holds no `close1` and ends at one, immediately
/// followed by `open2` and the second span, which holds no `close2` and ends
/// at one; neither span contains an empty line; the flag says whether an
/// unescaped `prefix` stands before `open1`.
pub open spec fn chained_match(sc: ChainedScan, item: (bool, Span, Span)) -> bool {
    let s = sc.src;
    let (f, t, u) = item;
    let (ta, te, ua, ue) = (t.start as int, t.end as int, u.start as int, u.end as int);
    &&& 1 <= ta <= te && te + 2 == ua && ua <= ue < s.len()
    &&& s[ta - 1] == sc.open1 && !escaped(s, ta - 1, sc.escape)
    &&& f == (ta - 1 > 0 && s[ta - 2] == sc.prefix && !escaped(s, ta - 2, sc.escape))
    &&& s[te] == sc.close1 && s[te + 1] == sc.open2 && s[ue] == sc.close2
    &&& (forall|i: int| ta <= i < te ==> #[trigger] s[i] != sc.close1)
    &&& (forall|i: int| ua <= i < ue ==> #[trigger] s[i] != sc.close2)
    &&& (forall|i: int|
        ta <= i < te && #[trigger] s[i] == sc.eol ==> i + 1 < s.len() && s[i + 1] != sc.eol)
    &&& (forall|i: int|
        ua <= i < ue && #[trigger] s[i] == sc.eol ==> i + 1 < s.len() && s[i + 1] != sc.eol)
}

/// With no `open1` between the scan position and `p`, scanning from the
/// position and scanning from `p` yield the same.
pub proof fn lemma_chained_skip_to(sc: ChainedScan, p: int)
    requires
        0 <= sc.pos <= p,
        forall|i: int| sc.pos <= i < p ==> #[trigger] sc.src[i] != sc.open1,
    ensures
        sc.step() == sc.at(p).step(),
    decreases p - sc.pos,
{
    if sc.pos < p {
        if sc.pos < sc.src.len() {
            assert(sc.src[sc.pos] != sc.open1);
        }
        lemma_chained_skip_to(sc.at(sc.pos + 1), p);
        assert(find1(sc.src, sc.pos, sc.open1) == find1(sc.src, sc.pos + 1, sc.open1));
    }
}

/// Completeness of the chained scan: from an unescaped `open1` at the scan
/// position, when the first `close1` after it (at `c1`, within the
/// paragraph) is immediately followed by `open2`, and the first `close2`
/// after that (at `c2`, within the paragraph) exists, the scan yields the
/// two components, flagged when an unescaped `prefix` stands right before
/// `open1`, and resumes after `c2`.
pub proof fn lemma_chained_complete(sc: ChainedScan, c1: int, c2: int)
    requires
        0 <= sc.pos < c1,
        c1 + 2 <= c2 < sc.src.len(),
        sc.close1 != sc.eol,
        sc.close2 != sc.eol,
        sc.src[sc.pos] == sc.open1,
        !escaped(sc.src, sc.pos, sc.escape),
        sc.src[c1] == sc.close1,
        sc.src[c1 + 1] == sc.open2,
        sc.src[c2] == sc.close2,
        forall|i: int| sc.pos + 1 <= i < c1 ==> #[trigger] sc.src[i] != sc.close1,
        forall|i: int| c1 + 2 <= i < c2 ==> #[trigger] sc.src[i] != sc.close2,
        forall|i: int|
            sc.pos + 1 <= i < c1 && #[trigger] sc.src[i] == sc.eol ==> i + 1 < sc.src.len()
                && sc.src[i + 1] != sc.eol,
        forall|i: int|
            c1 + 2 <= i < c2 && #[trigger] sc.src[i] == sc.eol ==> i + 1 < sc.src.len()
                && sc.src[i + 1] != sc.eol,
    ensures
        sc.step() == Some(
            (
                (
                    sc.pos > 0 && sc.src[sc.pos - 1] == sc.prefix && !escaped(
                        sc.src,
                        sc.pos - 1,
                        sc.escape,
                    ),
                    Span::mk(sc.pos + 1, c1),
                    Span::mk(c1 + 2, c2),
                ),
                c2 + 1,
            ),
        ),
{
    let s = sc.src;
    lemma_find1_is(s, sc.pos, sc.open1, sc.pos);
    lemma_para_finds(s, sc.close1, sc.eol, sc.pos + 1, c1);
    lemma_para_finds(s, sc.close2, sc.eol, c1 + 2, c2);
}

/// A step of the chained scan moves forward and yields a
/// [`chained_match`].
pub proof fn lemma_chained_step(sc: ChainedScan)
    requires
        0 <= sc.pos,
        sc.src.len() <= u32::MAX,
    ensures
        sc.step() matches Some((it, np)) ==> {
            &&& sc.pos < it.1.start && it.2.end + 1 == np <= sc.src.len()
            &&& chained_match(sc, it)
        },
    decreases sc.src.len() - sc.pos,
{
    let s = sc.src;
    let len = s.len() as int;
    lemma_find1(s, sc.pos, sc.open1);
    match find1(s, sc.pos, sc.open1) {
        None => {},
        Some(p) => {
            if escaped(s, p, sc.escape) {
                lemma_chained_step(sc.at(p + 1));
            } else {
                lemma_para_find(s, sc.close1, sc.eol, p + 1);
                match para_find(s, sc.close1, sc.eol, p + 1) {
                    None => {
                        lemma_chained_step(sc.at(p + 1));
                    },
                    Some(c1) => {
                        if c1 + 1 >= len || s[c1 + 1] != sc.open2 {
                            lemma_chained_step(sc.at(p + 1));
                        } else {
                            lemma_para_find(s, sc.close2, sc.eol, c1 + 2);
                            if para_find(s, sc.close2, sc.eol, c1 + 2) is None {
                                lemma_chained_step(sc.at(p + 1));
                            }
                        }
                    },
                }
            }
        },
    }
}

/// Every remaining match of a chained scan is a [`chained_match`] after the
/// scan position, and the matches come in source order without overlap.
pub proof fn lemma_chained_remaining(sc: ChainedScan)
    requires
        0 <= sc.pos,
        sc.src.len() <= u32::MAX,
    ensures
        forall|i: int|
            0 <= i < sc.remaining().len() ==>
                chained_match(sc, #[trigger] sc.remaining()[i])
                    && sc.pos <= sc.remaining()[i].1.start,
        forall|i: int|
            0 <= i < sc.remaining().len() - 1 ==>
                #[trigger] sc.remaining()[i].2.end <= sc.remaining()[i + 1].1.start,
    decreases sc.src.len() - sc.pos,
{
    lemma_chained_step(sc);
    match sc.step() {
        None => {},
        Some((it, np)) => {
            if !(np <= sc.pos || np > sc.src.len()) {
                let rest = sc.at(np);
                lemma_chained_remaining(rest);
                let r = sc.remaining();
                let rr = rest.remaining();
                assert(r == seq![it] + rr);
                assert forall|i: int| 0 <= i < r.len() implies
                    chained_match(sc, #[trigger] r[i]) && sc.pos <= r[i].1.start by {
                    if i > 0 {
                        assert(r[i] == rr[i - 1]);
                    }
                }
                assert forall|i: int| 0 <= i < r.len() - 1 implies
                    #[trigger] r[i].2.end <= r[i + 1].1.start by {
                    assert(r[i + 1] == rr[i]);
                    if i > 0 {
                        assert(r[i] == rr[i - 1]);
                    }
                }
            }
        },
    }
}

/// The iterator over two-part chained delimiter matches of a byte slice:
/// `[prefix]open1 … close1 open2 … close2`, e.g. links `[text](url)` and
/// images `![alt](src)`.
///
/// Component close searches are paragraph-bounded; the `close1`/`open2`
/// junction must be byte-adjacent. Escapes are respected on `open1` and on
/// the prefix. Each match goes to `make` as `(is_prefix, span1, span2)`.
#[verifier::reject_recursive_types(T)]
#[verifier::reject_recursive_types(F)]
pub struct ChainedIter<'a, T, F> where F: Fn(bool, Span, Span) -> T {
    src: &'a [u8],
    open1: u8,
    close1: u8,
    open2: u8,
    close2: u8,
    prefix: u8,
    eol: u8,
    escape: u8,
    make: F,
    pos: usize,
    _t: std::marker::PhantomData<T>,
}

impl<'a, T, F> View for ChainedIter<'a, T, F> where F: Fn(bool, Span, Span) -> T {
    type V = ChainedScan;

    closed spec fn view(&self) -> ChainedScan {
        ChainedScan {
            src: self.src@,
            open1: self.open1,
            close1: self.close1,
            open2: self.open2,
            close2: self.close2,
            prefix: self.prefix,
            eol: self.eol,
            escape: self.escape,
            pos: self.pos as int,
        }
    }
}

impl<'a, T, F> ChainedIter<'a, T, F> where F: Fn(bool, Span, Span) -> T {
    #[verifier::type_invariant]
    spec fn inv(self) -> bool {
        &&& self.pos <= self.src@.len()
        &&& self.src@.len() <= MAX_INPUT_LEN
        &&& forall|f: bool, a: Span, b: Span| call_requires(self.make, (f, a, b))
    }

    /// The closure that builds each item from `(is_prefix, span1, span2)`.
    pub closed spec fn maker(&self) -> F {
        self.make
    }

    /// Create an iterator over two-part chained delimiter matches of `src`.
    pub fn new(
        src: &'a [u8],
        open1: u8,
        close1: u8,
        open2: u8,
        close2: u8,
        prefix: u8,
        eol: u8,
        escape: u8,
        make: F,
    ) -> (it: Self)
        requires
            src@.len() <= MAX_INPUT_LEN,
            forall|f: bool, a: Span, b: Span| call_requires(make, (f, a, b)),
        ensures
            it@ == (ChainedScan {
                src: src@,
                open1,
                close1,
                open2,
                close2,
                prefix,
                eol,
                escape,
                pos: 0,
            }),
            it.maker() == make,
    {
        ChainedIter {
            src,
            open1,
            close1,
            open2,
            close2,
            prefix,
            eol,
            escape,
            make,
            pos: 0,
            _t: std::marker::PhantomData,
        }
    }

    /// Paragraph-bounded close search: the position of the next `needle` at
    /// or after `from`, treating a single `eol` as ordinary content and an
    /// empty line (or the end of input) as the end of the search space.
    fn para_close(&self, from: usize, needle: u8) -> (r: Option<usize>)
        requires
            from <= self.src@.len(),
        ensures
            r == (match para_find(self.src@, needle, self.eol, from as int) {
                Some(q) => Some(q as usize),
                None => None::<usize>,
            }),
    {
        proof {
            lemma_para_find(self.src@, needle, self.eol, from as int);
        }
        let src = self.src;
        let len = src.len();
        let mut j = from;
        loop
            invariant
                from <= j <= len,
                len == src@.len(),
                src@ == self.src@,
                para_find(src@, needle, self.eol, j as int) == para_find(
                    src@,
                    needle,
                    self.eol,
                    from as int,
                ),
            decreases len - j,
        {
            proof {
                lemma_find2(src@, j as int, needle, self.eol);
            }
            let q = match find_byte2(src, j, needle, self.eol) {
                Some(q) => q,
                None => {
                    return None;
                },
            };
            if src[q] == self.eol {
                if q + 1 >= len || src[q + 1] == self.eol {
                    return None;
                }
                j = q + 1;
                continue;
            }
            return Some(q);
        }
    }

    /// The next match, built by `make`: the first of the remaining matches,
    /// which are then the rest; `None` once none remain.
    pub fn next(&mut self) -> (r: Option<T>)
        ensures
            final(self)@ == old(self)@.at(final(self)@.pos),
            final(self).maker() == old(self).maker(),
            match old(self)@.step() {
                Some((it, np)) => r matches Some(item) && call_ensures(
                    old(self).maker(),
                    (it.0, it.1, it.2),
                    item,
                ) && final(self)@.pos == np,
                None => r is None && final(self)@.remaining() == Seq::<
                    (bool, Span, Span),
                >::empty(),
            },
            old(self)@.remaining() == (match old(self)@.step() {
                Some((it, _)) => seq![it] + final(self)@.remaining(),
                None => Seq::<(bool, Span, Span)>::empty(),
            }),
    {
        proof {
            use_type_invariant(&*self);
            lemma_chained_step(self@);
        }
        let ghost sc0 = self@;
        let src = self.src;
        let len = src.len();
        loop
            invariant
                self@ == sc0.at(self@.pos),
                sc0 == old(self)@,
                self.maker() == old(self).maker(),
                sc0.src == src@,
                len == src@.len() <= MAX_INPUT_LEN,
                0 <= self@.pos <= len,
                self@.step() == sc0.step(),
            decreases len - self@.pos,
        {
            proof {
                use_type_invariant(&*self);
                lemma_find1(src@, self@.pos, self.open1);
            }
            let p = match find_byte(src, self.pos, self.open1) {
                Some(p) => p,
                None => {
                    return None;
                },
            };
            if count_escape(src, p, self.escape) % 2 == 1 {
                self.pos = p + 1;
                continue;
            }
            let is_prefix = p > 0 && src[p - 1] == self.prefix && count_escape(
                src,
                p - 1,
                self.escape,
            ) % 2 == 0;
            let text_start = p + 1;
            proof {
                lemma_para_find(src@, self.close1, self.eol, text_start as int);
            }
            let c1 = match self.para_close(text_start, self.close1) {
                Some(c1) => c1,
                None => {
                    self.pos = p + 1;
                    continue;
                },
            };
            let nxt = c1 + 1;
            if nxt >= len || src[nxt] != self.open2 {
                self.pos = p + 1;
                continue;
            }
            let url_start = nxt + 1;
            proof {
                lemma_para_find(src@, self.close2, self.eol, url_start as int);
            }
            let c2 = match self.para_close(url_start, self.close2) {
                Some(c2) => c2,
                None => {
                    self.pos = p + 1;
                    continue;
                },
            };
            self.pos = c2 + 1;
            proof {
                use_type_invariant(&*self);
                lemma_chained_step(sc0);
            }
            return Some(
                (self.make)(
                    is_prefix,
                    Span::new(text_start as u32, c1 as u32),
                    Span::new(url_start as u32, c2 as u32),
                ),
            );
        }
    }
}

} // verus!
