//! [`LineMarkerIter`]: line-marker element standalone iterator.
use vstd::prelude::*;
use crate::search::{find1, line_end, lemma_find1, lemma_find1_is, find_byte};
use crate::span::{Span, MAX_INPUT_LEN};
use super::common::{run_end, lemma_run_end, after_line, find_line_end};

verus! {

/// The state of a line-marker scan.
pub struct LineMarkerScan {
    pub src: Seq<u8>,
    pub byte: u8,
    pub max: u8,
    pub eol: u8,
    pub sep: u8,
    pub pos: int,
}

/// The marker count read at `p`: the run of `byte`s there, capped at `max`.
pub open spec fn capped_run(s: Seq<u8>, p: int, byte: u8, max: u8) -> int {
    let n = run_end(s, p, byte) - p;
    if n > max {
        max as int
    } else {
        n
    }
}

impl LineMarkerScan {
    /// The same scan resumed at `pos`.
    pub open spec fn at(self, pos: int) -> LineMarkerScan {
        LineMarkerScan { pos, ..self }
    }

    /// The next line-marker element at or after `pos` — its marker count
    /// and content span — with the position after it.
    ///
    /// A `byte` that does not begin its line is skipped. At a line start up
    /// to `max` `byte`s are counted; if the count ends the line (or the
    /// input) the element has an empty span there; if `sep` follows, the
    /// content runs from after `sep` to the end of the line; otherwise the
    /// scan resumes one byte after the counted run.
    pub open spec fn step(self) -> Option<((u8, Span), int)>
        decreases self.src.len() - self.pos,
    {
        let s = self.src;
        let len = s.len() as int;
        if self.pos < 0 {
            None
        } else {
            match find1(s, self.pos, self.byte) {
                None => None,
                Some(p) => {
                    proof {
                        lemma_find1(s, self.pos, self.byte);
                        lemma_run_end(s, p, self.byte);
                    }
                    if p > 0 && s[p - 1] != self.eol {
                        self.at(p + 1).step()
                    } else {
                        let c = capped_run(s, p, self.byte, self.max);
                        let i = p + c;
                        if i >= len || s[i] == self.eol {
                            Some(((c as u8, Span::mk(i, i)), after_line(len, i)))
                        } else if s[i] == self.sep {
                            let le = line_end(s, i + 1, self.eol);
                            Some(((c as u8, Span::mk(i + 1, le)), after_line(len, le)))
                        } else {
                            self.at(i + 1).step()
                        }
                    }
                },
            }
        }
    }

    /// Every line-marker element at or after `pos`, in order.
    pub open spec fn remaining(self) -> Seq<(u8, Span)>
        decreases self.src.len() - self.pos,
    {
        match self.step() {
            None => Seq::empty(),
            Some((it, np)) => if np <= self.pos || np > self.src.len() {
                Seq::empty()
            } else {
                seq![it] + self.at(np).remaining()
            },
        }
    }
}

/// What a line-marker element is: at a line start `m` stand `c` `byte`s
/// (`c <= max`), followed either by the end of the line — the span is then
/// the empty span after them — or by `sep`, and the span is the rest of the
/// line.
pub open spec fn marker_match(s: Seq<u8>, byte: u8, max: u8, eol: u8, sep: u8, item: (u8, Span)) -> bool {
    let c = item.0 as int;
    let a = item.1.start as int;
    let e = item.1.end as int;
    exists|m: int|
        #![trigger s[m]]
        0 <= m && m + c <= s.len() && (m == 0 || s[m - 1] == eol) && (forall|k: int|
            m <= k < m + c ==> s[k] == byte) && c <= max && ((a == m + c && e == m + c && (m + c
            == s.len() || s[m + c] == eol)) || (m + c < s.len() && s[m + c] == sep && a == m + c
            + 1 && e == line_end(s, a, eol)))
}

/// With no `byte` between the scan position and `p`, scanning from the
/// position and scanning from `p` yield the same.
pub proof fn lemma_line_marker_skip_to(sc: LineMarkerScan, p: int)
    requires
        0 <= sc.pos <= p,
        forall|i: int| sc.pos <= i < p ==> #[trigger] sc.src[i] != sc.byte,
    ensures
        sc.step() == sc.at(p).step(),
    decreases p - sc.pos,
{
    if sc.pos < p {
        if sc.pos < sc.src.len() {
            assert(sc.src[sc.pos] != sc.byte);
        }
        lemma_line_marker_skip_to(sc.at(sc.pos + 1), p);
        assert(find1(sc.src, sc.pos, sc.byte) == find1(sc.src, sc.pos + 1, sc.byte));
    }
}

/// Completeness of the line-marker scan: when the line at the scan position
/// (a line start) begins with exactly `c` marker bytes (`1 <= c <= max`),
/// followed by the end of the line, the scan yields `c` with the empty span
/// after the markers; followed by `sep`, it yields `c` with the rest of the
/// line after the `sep`. Either way it resumes on the next line.
pub proof fn lemma_line_marker_complete(sc: LineMarkerScan, c: int)
    requires
        0 <= sc.pos,
        sc.pos == 0 || sc.src[sc.pos - 1] == sc.eol,
        1 <= c <= sc.max,
        sc.byte != sc.eol,
        sc.pos + c <= sc.src.len(),
        forall|i: int| sc.pos <= i < sc.pos + c ==> #[trigger] sc.src[i] == sc.byte,
        sc.pos + c == sc.src.len() || sc.src[sc.pos + c] == sc.eol || (sc.src[sc.pos + c]
            == sc.sep && sc.sep != sc.byte),
    ensures
        sc.pos + c == sc.src.len() || sc.src[sc.pos + c] == sc.eol ==> sc.step() == Some(
            (
                (c as u8, Span::mk(sc.pos + c, sc.pos + c)),
                after_line(sc.src.len() as int, sc.pos + c),
            ),
        ),
        sc.pos + c < sc.src.len() && sc.src[sc.pos + c] == sc.sep && sc.sep != sc.eol
            ==> sc.step() == Some(
            (
                (c as u8, Span::mk(sc.pos + c + 1, line_end(sc.src, sc.pos + c + 1, sc.eol))),
                after_line(sc.src.len() as int, line_end(sc.src, sc.pos + c + 1, sc.eol)),
            ),
        ),
{
    let s = sc.src;
    assert(s[sc.pos] == sc.byte);
    lemma_find1_is(s, sc.pos, sc.byte, sc.pos);
    lemma_run_end(s, sc.pos, sc.byte);
    let r = run_end(s, sc.pos, sc.byte);
    if r < sc.pos + c {
        assert(s[r] == sc.byte);
    }
    if sc.pos + c < s.len() && r > sc.pos + c {
        assert(s[sc.pos + c] == sc.byte);
    }
}

/// A step of the scan moves forward and yields a [`marker_match`].
pub proof fn lemma_line_marker_step(sc: LineMarkerScan)
    requires
        0 <= sc.pos,
        sc.src.len() <= u32::MAX,
    ensures
        sc.step() matches Some((it, np)) ==> {
            &&& sc.pos < np <= sc.src.len()
            &&& sc.pos <= it.1.start <= it.1.end
            &&& it.1.end < np || it.1.end == np == sc.src.len()
            &&& it.1.start <= it.1.end <= sc.src.len()
            &&& marker_match(sc.src, sc.byte, sc.max, sc.eol, sc.sep, it)
        },
    decreases sc.src.len() - sc.pos,
{
    let s = sc.src;
    let len = s.len() as int;
    lemma_find1(s, sc.pos, sc.byte);
    match find1(s, sc.pos, sc.byte) {
        None => {},
        Some(p) => {
            lemma_run_end(s, p, sc.byte);
            if p > 0 && s[p - 1] != sc.eol {
                lemma_line_marker_step(sc.at(p + 1));
            } else {
                let c = capped_run(s, p, sc.byte, sc.max);
                let i = p + c;
                if i >= len || s[i] == sc.eol {
                    assert(s[p] == sc.byte);
                } else if s[i] == sc.sep {
                    lemma_find1(s, i + 1, sc.eol);
                    assert(s[p] == sc.byte);
                } else {
                    lemma_line_marker_step(sc.at(i + 1));
                }
            }
        },
    }
}

/// Every remaining element of a line-marker scan is a [`marker_match`] at or
/// after the scan position, and the elements come in source order without
/// overlap.
pub proof fn lemma_line_marker_remaining(sc: LineMarkerScan)
    requires
        0 <= sc.pos,
        sc.src.len() <= u32::MAX,
    ensures
        forall|i: int|
            0 <= i < sc.remaining().len() ==>
                marker_match(sc.src, sc.byte, sc.max, sc.eol, sc.sep, #[trigger] sc.remaining()[i])
                    && sc.pos <= sc.remaining()[i].1.start,
        forall|i: int|
            0 <= i < sc.remaining().len() - 1 ==>
                #[trigger] sc.remaining()[i].1.end <= sc.remaining()[i + 1].1.start,
    decreases sc.src.len() - sc.pos,
{
    lemma_line_marker_step(sc);
    match sc.step() {
        None => {},
        Some((it, np)) => {
            if !(np <= sc.pos || np > sc.src.len()) {
                let rest = sc.at(np);
                lemma_line_marker_remaining(rest);
                let r = sc.remaining();
                let rr = rest.remaining();
                assert(r == seq![it] + rr);
                assert forall|i: int| 0 <= i < r.len() implies
                    marker_match(sc.src, sc.byte, sc.max, sc.eol, sc.sep, #[trigger] r[i])
                        && sc.pos <= r[i].1.start by {
                    if i > 0 {
                        assert(r[i] == rr[i - 1]);
                    }
                }
                assert forall|i: int| 0 <= i < r.len() - 1 implies
                    #[trigger] r[i].1.end <= r[i + 1].1.start by {
                    assert(r[i + 1] == rr[i]);
                    if i > 0 {
                        assert(r[i] == rr[i - 1]);
                    }
                }
            }
        },
    }
}

/// The iterator over line-marker elements of a byte slice.
///
/// Matches lines that start with 1 to `max` consecutive `byte`s followed by
/// `sep` or the end of the line; the count goes to `make` for the item's
/// metadata, and the span covers the content after the marker and its
/// separator.
#[verifier::reject_recursive_types(T)]
#[verifier::reject_recursive_types(F)]
pub struct LineMarkerIter<'a, T, F> where F: Fn(u8) -> T {
    src: &'a [u8],
    byte: u8,
    max: u8,
    eol: u8,
    sep: u8,
    make: F,
    pos: usize,
    _t: std::marker::PhantomData<T>,
}

impl<'a, T, F> View for LineMarkerIter<'a, T, F> where F: Fn(u8) -> T {
    type V = LineMarkerScan;

    closed spec fn view(&self) -> LineMarkerScan {
        LineMarkerScan {
            src: self.src@,
            byte: self.byte,
            max: self.max,
            eol: self.eol,
            sep: self.sep,
            pos: self.pos as int,
        }
    }
}

impl<'a, T, F> LineMarkerIter<'a, T, F> where F: Fn(u8) -> T {
    #[verifier::type_invariant]
    spec fn inv(self) -> bool {
        &&& self.pos <= self.src@.len()
        &&& self.src@.len() <= MAX_INPUT_LEN
        &&& forall|c: u8| call_requires(self.make, (c,))
    }

    /// The closure that builds each item's metadata.
    pub closed spec fn maker(&self) -> F {
        self.make
    }

    /// Create an iterator over line-marker elements of `src` (marker `byte`,
    /// at most `max` of them, `eol` line terminator, `sep` after the marker;
    /// `make` builds the metadata from the count).
    pub fn new(src: &'a [u8], byte: u8, max: u8, eol: u8, sep: u8, make: F) -> (it: Self)
        requires
            src@.len() <= MAX_INPUT_LEN,
            forall|c: u8| call_requires(make, (c,)),
        ensures
            it@ == (LineMarkerScan { src: src@, byte, max, eol, sep, pos: 0 }),
            it.maker() == make,
    {
        LineMarkerIter { src, byte, max, eol, sep, make, pos: 0, _t: std::marker::PhantomData }
    }

    /// The next element: the first of the remaining elements (its metadata
    /// built by `make` from the count), which are then the rest; `None`
    /// once none remain.
    pub fn next(&mut self) -> (r: Option<(T, Span)>)
        ensures
            final(self)@ == old(self)@.at(final(self)@.pos),
            final(self).maker() == old(self).maker(),
            match old(self)@.step() {
                Some((it, np)) => r matches Some((meta, sp)) && sp == it.1 && call_ensures(
                    old(self).maker(),
                    (it.0,),
                    meta,
                ) && final(self)@.pos == np,
                None => r is None && final(self)@.remaining() == Seq::<(u8, Span)>::empty(),
            },
            old(self)@.remaining().len() == (match r {
                Some(_) => 1 + final(self)@.remaining().len(),
                None => 0,
            }),
            r is Some ==> old(self)@.remaining() == seq![old(self)@.remaining()[0]]
                + final(self)@.remaining(),
    {
        proof {
            use_type_invariant(&*self);
            lemma_line_marker_step(self@);
        }
        let ghost sc0 = self@;
        let src = self.src;
        let len = src.len();
        let byte = self.byte;
        let max = self.max;
        let eol = self.eol;
        let sep = self.sep;
        loop
            invariant
                self@ == sc0.at(self@.pos),
                sc0 == old(self)@,
                self.maker() == old(self).maker(),
                sc0.src == src@,
                len == src@.len() <= MAX_INPUT_LEN,
                byte == sc0.byte,
                max == sc0.max,
                eol == sc0.eol,
                sep == sc0.sep,
                0 <= self@.pos <= len,
                self@.step() == sc0.step(),
            decreases len - self@.pos,
        {
            proof {
                use_type_invariant(&*self);
                lemma_find1(src@, self@.pos, byte);
            }
            let p = match find_byte(src, self.pos, byte) {
                Some(p) => p,
                None => {
                    return None;
                },
            };
            if p > 0 && src[p - 1] != eol {
                self.pos = p + 1;
                continue;
            }
            proof {
                lemma_run_end(src@, p as int, byte);
            }
            let mut c = 0u8;
            let mut i = p;
            while i < len && src[i] == byte && c < max
                invariant
                    p <= i <= len,
                    len == src@.len(),
                    c as int == i - p,
                    c <= max,
                    i - p <= run_end(src@, p as int, byte) - p,
                    i < run_end(src@, p as int, byte) ==> src@[i as int] == byte,
                    forall|k: int| p <= k < run_end(src@, p as int, byte) ==> src@[k] == byte,
                    run_end(src@, p as int, byte) <= len,
                    run_end(src@, p as int, byte) < len ==> src@[run_end(src@, p as int, byte)]
                        != byte,
                decreases len - i,
            {
                c += 1;
                i += 1;
            }
            assert(c as int == capped_run(src@, p as int, byte, max));
            if i >= len || src[i] == eol {
                proof {
                    use_type_invariant(&*self);
                }
                let meta = (self.make)(c);
                self.pos = if i < len {
                    i + 1
                } else {
                    len
                };
                proof {
                    lemma_line_marker_step(sc0);
                }
                return Some((meta, Span::new(i as u32, i as u32)));
            }
            if src[i] == sep {
                let cs = i + 1;
                let le = find_line_end(src, cs, eol);
                proof {
                    use_type_invariant(&*self);
                }
                let meta = (self.make)(c);
                self.pos = if le < len {
                    le + 1
                } else {
                    len
                };
                proof {
                    lemma_line_marker_step(sc0);
                }
                return Some((meta, Span::new(cs as u32, le as u32)));
            }
            self.pos = i + 1;
        }
    }
}

} // verus!
