//! [`LineUniformIter`]: uniform-line element standalone iterator.
use vstd::prelude::*;
use crate::search::{findn, line_end, lemma_findn, lemma_find1, lemma_findn_skip, find_any_of};
use crate::span::{Span, MAX_INPUT_LEN};
use super::common::{after_line, find_line_end};
use super::probe::{accepted, probe_matcher};

verus! {

/// Every byte of `s[a..b]` is `d` or `sep`.
pub open spec fn uniform(s: Seq<u8>, a: int, b: int, d: u8, sep: u8) -> bool {
    forall|i: int| a <= i < b ==> #[trigger] s[i] == d || s[i] == sep
}

/// How many bytes of `s[a..b]` are `d`.
pub open spec fn count_of(s: Seq<u8>, a: int, b: int, d: u8) -> int
    decreases b - a,
{
    if b <= a {
        0
    } else {
        count_of(s, a, b - 1, d) + if s[b - 1] == d {
            1int
        } else {
            0int
        }
    }
}

proof fn lemma_count_of_le(s: Seq<u8>, a: int, b: int, d: u8)
    requires
        a <= b,
    ensures
        0 <= count_of(s, a, b, d) <= b - a,
    decreases b - a,
{
    if b > a {
        lemma_count_of_le(s, a, b - 1, d);
    }
}

/// The state of a uniform-line scan. `accept` is the delimiter predicate's
/// answer for every byte; when it accepts at most three bytes, `streaming`
/// holds and `needles` are those bytes.
pub struct LineUniformScan {
    pub src: Seq<u8>,
    pub min: u32,
    pub eol: u8,
    pub sep: u8,
    pub accept: Seq<bool>,
    pub needles: Seq<u8>,
    pub streaming: bool,
    pub pos: int,
}

impl LineUniformScan {
    /// The same scan resumed at `pos`.
    pub open spec fn at(self, pos: int) -> LineUniformScan {
        LineUniformScan { pos, ..self }
    }

    /// Does the line `[a, le)` consist of its first byte `d` and `sep` only,
    /// with at least `min` copies of `d`?
    pub open spec fn line_ok(self, a: int, le: int, d: u8) -> bool {
        uniform(self.src, a, le, d, self.sep) && count_of(self.src, a, le, d) >= self.min
    }

    /// The next item by the line-by-line rule: the next non-empty line from
    /// `pos` whose first byte is accepted and which is uniform in it.
    pub open spec fn line_step(self) -> Option<((u8, Span), int)>
        decreases self.src.len() - self.pos,
    {
        let s = self.src;
        let len = s.len() as int;
        if self.pos < 0 || self.pos >= len {
            None
        } else {
            let le = line_end(s, self.pos, self.eol);
            proof {
                lemma_find1(s, self.pos, self.eol);
            }
            if self.pos < le && self.accept[s[self.pos] as int] && self.line_ok(
                self.pos,
                le,
                s[self.pos],
            ) {
                Some(((s[self.pos], Span::mk(self.pos, le)), after_line(len, le)))
            } else {
                self.at(after_line(len, le)).line_step()
            }
        }
    }

    /// The next item by the streaming rule: the next needle byte that
    /// begins its line, when that line is uniform in it. A hit that fails
    /// rules out the rest of its line.
    pub open spec fn stream_step(self) -> Option<((u8, Span), int)>
        decreases self.src.len() - self.pos,
    {
        let s = self.src;
        let len = s.len() as int;
        if self.pos < 0 {
            None
        } else {
            match findn(s, self.pos, self.needles) {
                None => None,
                Some(p) => {
                    proof {
                        lemma_findn(s, self.pos, self.needles);
                        lemma_find1(s, p, self.eol);
                    }
                    let le = line_end(s, p, self.eol);
                    if p > 0 && s[p - 1] != self.eol {
                        self.at(after_line(len, le)).stream_step()
                    } else if self.line_ok(p, le, s[p]) {
                        Some(((s[p], Span::mk(p, le)), after_line(len, le)))
                    } else {
                        self.at(after_line(len, le)).stream_step()
                    }
                },
            }
        }
    }

    /// The next item: by the streaming rule when `streaming`, else by the
    /// line-by-line rule.
    pub open spec fn step(self) -> Option<((u8, Span), int)> {
        if self.streaming {
            self.stream_step()
        } else {
            self.line_step()
        }
    }

    /// Every item at or after `pos`, in order.
    pub open spec fn remaining(self) -> Seq<(u8, Span)>
        decreases self.src.len() - self.pos,
    {
        match self.step() {
            None => Seq::empty(),
            Some((it, np)) => if np <= self.pos || np > self.src.len() {
                Seq::empty()
            } else {
                seq![it] + self.at(np).remaining()
            },
        }
    }
}

/// What a uniform-line item is: a whole line that begins with the item's
/// byte and holds only that byte and `sep`, the byte at least `min` times.
pub open spec fn uniform_match(s: Seq<u8>, eol: u8, sep: u8, min: u32, item: (u8, Span)) -> bool {
    let a = item.1.start as int;
    let e = item.1.end as int;
    &&& 0 <= a < s.len()
    &&& a <= e <= s.len()
    &&& a == 0 || s[a - 1] == eol
    &&& e == line_end(s, a, eol)
    &&& s[a] == item.0
    &&& uniform(s, a, e, item.0, sep)
    &&& count_of(s, a, e, item.0) >= min
}

/// The item a step yields, and where it resumes: forward, after its line.
pub open spec fn uniform_step_ok(sc: LineUniformScan, it: (u8, Span), np: int) -> bool {
    &&& sc.pos <= it.1.start < np <= sc.src.len()
    &&& np == after_line(sc.src.len() as int, it.1.end as int)
    &&& uniform_match(sc.src, sc.eol, sc.sep, sc.min, it)
}

/// A streaming step yields a uniform line whose byte is one of the needles.
pub proof fn lemma_line_uniform_stream_step(sc: LineUniformScan)
    requires
        0 <= sc.pos <= sc.src.len() <= u32::MAX,
    ensures
        sc.stream_step() matches Some((it, np)) ==> uniform_step_ok(sc, it, np)
            && sc.needles.contains(it.0),
    decreases sc.src.len() - sc.pos,
{
    let s = sc.src;
    let len = s.len() as int;
    lemma_findn(s, sc.pos, sc.needles);
    match findn(s, sc.pos, sc.needles) {
        None => {},
        Some(p) => {
            lemma_find1(s, p, sc.eol);
            let le = line_end(s, p, sc.eol);
            if p > 0 && s[p - 1] != sc.eol {
                lemma_line_uniform_stream_step(sc.at(after_line(len, le)));
            } else if sc.line_ok(p, le, s[p]) {
            } else {
                lemma_line_uniform_stream_step(sc.at(after_line(len, le)));
            }
        },
    }
}

/// A line-by-line step from a line start yields a uniform line whose byte
/// is accepted.
pub proof fn lemma_line_uniform_line_step(sc: LineUniformScan)
    requires
        0 <= sc.pos <= sc.src.len() <= u32::MAX,
        sc.pos == 0 || sc.pos == sc.src.len() || sc.src[sc.pos - 1] == sc.eol,
        sc.accept.len() == 256,
    ensures
        sc.line_step() matches Some((it, np)) ==> uniform_step_ok(sc, it, np)
            && sc.accept[it.0 as int],
    decreases sc.src.len() - sc.pos,
{
    let s = sc.src;
    let len = s.len() as int;
    if sc.pos < len {
        let le = line_end(s, sc.pos, sc.eol);
        lemma_find1(s, sc.pos, sc.eol);
        if !(sc.pos < le && sc.accept[s[sc.pos] as int] && sc.line_ok(sc.pos, le, s[sc.pos])) {
            lemma_line_uniform_line_step(sc.at(after_line(len, le)));
        }
    }
}


/// The conditions under which the two rules agree: the needles are exactly
/// the accepted bytes, and the line terminator is not accepted.
pub open spec fn rules_agree_on(sc: LineUniformScan) -> bool {
    &&& sc.accept.len() == 256
    &&& forall|b: u8| sc.needles.contains(b) == sc.accept[b as int]
    &&& !sc.accept[sc.eol as int]
}

/// From a line start, the streaming rule and the line-by-line rule give the
/// same next item at the same resume position.
pub proof fn lemma_line_uniform_rules_agree(sc: LineUniformScan)
    requires
        0 <= sc.pos <= sc.src.len(),
        sc.pos == 0 || sc.pos == sc.src.len() || sc.src[sc.pos - 1] == sc.eol,
        rules_agree_on(sc),
    ensures
        sc.stream_step() == sc.line_step(),
    decreases sc.src.len() - sc.pos,
{
    let s = sc.src;
    let len = s.len() as int;
    if sc.pos < len {
        lemma_find1(s, sc.pos, sc.eol);
        lemma_findn(s, sc.pos, sc.needles);
        let le = line_end(s, sc.pos, sc.eol);
        let next = after_line(len, le);
        let nx = sc.at(next);
        match findn(s, sc.pos, sc.needles) {
            None => {
                lemma_findn(s, next, sc.needles);
                if sc.pos < le {
                    assert(!sc.needles.contains(s[sc.pos]));
                }
                lemma_line_uniform_rules_agree(nx);
            },
            Some(p) => {
                if p < le {
                    lemma_find1(s, p, sc.eol);
                    assert(line_end(s, p, sc.eol) == le);
                    if p > sc.pos {
                        assert(!sc.needles.contains(s[sc.pos]));
                        assert(s[p - 1] != sc.eol);
                    }
                    if !(p == sc.pos && sc.line_ok(p, le, s[p])) {
                        lemma_line_uniform_rules_agree(nx);
                    }
                } else {
                    assert(p != le);
                    assert forall|j: int| sc.pos <= j < next implies !sc.needles.contains(
                        #[trigger] s[j],
                    ) by {}
                    lemma_findn_skip(s, sc.pos, next, sc.needles);
                    if sc.pos < le {
                        assert(!sc.needles.contains(s[sc.pos]));
                    }
                    lemma_line_uniform_rules_agree(nx);
                }
            },
        }
    }
}

/// The streaming rule does not read the rule flag.
proof fn lemma_stream_flag(sc: LineUniformScan, flag: bool)
    ensures
        sc.stream_step() == (LineUniformScan { streaming: flag, ..sc }).stream_step(),
    decreases sc.src.len() - sc.pos,
{
    let s = sc.src;
    let len = s.len() as int;
    if sc.pos >= 0 {
        lemma_findn(s, sc.pos, sc.needles);
        match findn(s, sc.pos, sc.needles) {
            None => {},
            Some(p) => {
                lemma_find1(s, p, sc.eol);
                let nx = sc.at(after_line(len, line_end(s, p, sc.eol)));
                lemma_stream_flag(nx, flag);
                assert((LineUniformScan { streaming: flag, ..sc }).at(nx.pos) == (LineUniformScan {
                    streaming: flag,
                    ..nx
                }));
            },
        }
    }
}

/// The line-by-line rule does not read the rule flag.
proof fn lemma_line_flag(sc: LineUniformScan, flag: bool)
    ensures
        sc.line_step() == (LineUniformScan { streaming: flag, ..sc }).line_step(),
    decreases sc.src.len() - sc.pos,
{
    let s = sc.src;
    let len = s.len() as int;
    if 0 <= sc.pos < len {
        lemma_find1(s, sc.pos, sc.eol);
        let nx = sc.at(after_line(len, line_end(s, sc.pos, sc.eol)));
        lemma_line_flag(nx, flag);
        assert((LineUniformScan { streaming: flag, ..sc }).at(nx.pos) == (LineUniformScan {
            streaming: flag,
            ..nx
        }));
    }
}

/// The streaming and the line-by-line scans yield the same items: which
/// rule the probe picked does not change what is found.
pub proof fn lemma_line_uniform_remaining_agree(sc: LineUniformScan)
    requires
        0 <= sc.pos <= sc.src.len() <= u32::MAX,
        sc.pos == 0 || sc.pos == sc.src.len() || sc.src[sc.pos - 1] == sc.eol,
        rules_agree_on(sc),
    ensures
        sc.remaining() == (LineUniformScan { streaming: !sc.streaming, ..sc }).remaining(),
    decreases sc.src.len() - sc.pos,
{
    let other = LineUniformScan { streaming: !sc.streaming, ..sc };
    lemma_stream_flag(sc, !sc.streaming);
    lemma_line_flag(sc, !sc.streaming);
    lemma_line_uniform_rules_agree(sc);
    lemma_line_uniform_stream_step(sc);
    lemma_line_uniform_line_step(sc);
    assert(sc.step() == other.step());
    match sc.step() {
        None => {},
        Some((it, np)) => {
            lemma_find1(sc.src, it.1.start as int, sc.eol);
            lemma_line_uniform_remaining_agree(sc.at(np));
            assert(other.at(np) == (LineUniformScan { streaming: !sc.streaming, ..sc.at(np) }));
        },
    }
}

/// The line-by-line rule reads the accept table only at bytes of the
/// source.
proof fn lemma_line_uniform_line_tables(a: LineUniformScan, b: LineUniformScan)
    requires
        a.src == b.src,
        a.min == b.min,
        a.eol == b.eol,
        a.sep == b.sep,
        a.pos == b.pos,
        forall|i: int|
            0 <= i < a.src.len() ==> a.accept[#[trigger] a.src[i] as int] == b.accept[a.src[i] as int],
    ensures
        a.line_step() == b.line_step(),
    decreases a.src.len() - a.pos,
{
    let s = a.src;
    let len = s.len() as int;
    if 0 <= a.pos < len {
        lemma_find1(s, a.pos, a.eol);
        let le = line_end(s, a.pos, a.eol);
        if a.pos < le {
            assert(a.accept[s[a.pos] as int] == b.accept[s[a.pos] as int]);
        }
        lemma_line_uniform_line_tables(a.at(after_line(len, le)), b.at(after_line(len, le)));
    }
}

/// Two line-by-line scans whose accept tables agree on the source's bytes
/// find the same items.
proof fn lemma_line_uniform_line_remaining(a: LineUniformScan, b: LineUniformScan)
    requires
        a.src == b.src,
        a.min == b.min,
        a.eol == b.eol,
        a.sep == b.sep,
        a.pos == b.pos,
        0 <= a.pos,
        !a.streaming,
        !b.streaming,
        forall|i: int|
            0 <= i < a.src.len() ==> a.accept[#[trigger] a.src[i] as int] == b.accept[a.src[i] as int],
    ensures
        a.remaining() == b.remaining(),
    decreases a.src.len() - a.pos,
{
    lemma_line_uniform_line_tables(a, b);
    match a.step() {
        None => {},
        Some((it, np)) => {
            if !(np <= a.pos || np > a.src.len()) {
                lemma_line_uniform_line_remaining(a.at(np), b.at(np));
            }
        },
    }
}

/// Two delimiter predicates that agree on every byte of the source find the
/// same items from a line start, whether each is searched for by its
/// needles (when it accepts at most three bytes) or line by line.
pub proof fn lemma_line_uniform_matcher_independent(a: LineUniformScan, b: LineUniformScan)
    requires
        a.src == b.src,
        a.min == b.min,
        a.eol == b.eol,
        a.sep == b.sep,
        a.pos == b.pos,
        0 <= a.pos <= a.src.len() <= u32::MAX,
        a.pos == 0 || a.pos == a.src.len() || a.src[a.pos - 1] == a.eol,
        a.accept.len() == 256,
        b.accept.len() == 256,
        forall|i: int|
            0 <= i < a.src.len() ==> a.accept[#[trigger] a.src[i] as int] == b.accept[a.src[i] as int],
        a.streaming ==> rules_agree_on(a),
        b.streaming ==> rules_agree_on(b),
    ensures
        a.remaining() == b.remaining(),
{
    let la = LineUniformScan { streaming: false, ..a };
    let lb = LineUniformScan { streaming: false, ..b };
    if a.streaming {
        lemma_line_uniform_remaining_agree(a);
    } else {
        assert(la == a);
    }
    if b.streaming {
        lemma_line_uniform_remaining_agree(b);
    } else {
        assert(lb == b);
    }
    lemma_line_uniform_line_remaining(la, lb);
}


/// Completeness of the uniform-line scan: when the line at the scan
/// position (a line start) is non-empty, begins with an accepted byte `d`,
/// holds only `d` and `sep`, and holds `d` at least `min` times, the scan
/// yields that whole line with `d`, and resumes on the next line.
pub proof fn lemma_line_uniform_complete(sc: LineUniformScan)
    requires
        0 <= sc.pos < sc.src.len(),
        sc.pos == 0 || sc.src[sc.pos - 1] == sc.eol,
        sc.accept.len() == 256,
        sc.streaming ==> rules_agree_on(sc),
        sc.pos < line_end(sc.src, sc.pos, sc.eol),
        sc.accept[sc.src[sc.pos] as int],
        uniform(sc.src, sc.pos, line_end(sc.src, sc.pos, sc.eol), sc.src[sc.pos], sc.sep),
        count_of(sc.src, sc.pos, line_end(sc.src, sc.pos, sc.eol), sc.src[sc.pos]) >= sc.min,
    ensures
        sc.step() == Some(
            (
                (sc.src[sc.pos], Span::mk(sc.pos, line_end(sc.src, sc.pos, sc.eol))),
                after_line(sc.src.len() as int, line_end(sc.src, sc.pos, sc.eol)),
            ),
        ),
{
    lemma_find1(sc.src, sc.pos, sc.eol);
    if sc.streaming {
        lemma_line_uniform_rules_agree(sc);
    }
}

/// Every remaining item of a uniform-line scan from a line start is a
/// [`uniform_match`] at or after the scan position, and the items come in
/// source order without overlap.
pub proof fn lemma_line_uniform_remaining(sc: LineUniformScan)
    requires
        0 <= sc.pos <= sc.src.len() <= u32::MAX,
        sc.pos == 0 || sc.pos == sc.src.len() || sc.src[sc.pos - 1] == sc.eol,
        sc.accept.len() == 256,
    ensures
        forall|i: int|
            0 <= i < sc.remaining().len() ==>
                uniform_match(sc.src, sc.eol, sc.sep, sc.min, #[trigger] sc.remaining()[i])
                    && sc.pos <= sc.remaining()[i].1.start,
        forall|i: int|
            0 <= i < sc.remaining().len() - 1 ==>
                #[trigger] sc.remaining()[i].1.end <= sc.remaining()[i + 1].1.start,
    decreases sc.src.len() - sc.pos,
{
    if sc.streaming {
        lemma_line_uniform_stream_step(sc);
    } else {
        lemma_line_uniform_line_step(sc);
    }
    match sc.step() {
        None => {},
        Some((it, np)) => {
            if !(np <= sc.pos || np > sc.src.len()) {
                let rest = sc.at(np);
                lemma_find1(sc.src, it.1.start as int, sc.eol);
                lemma_line_uniform_remaining(rest);
                let r = sc.remaining();
                let rr = rest.remaining();
                assert(r == seq![it] + rr);
                assert forall|i: int| 0 <= i < r.len() implies
                    uniform_match(sc.src, sc.eol, sc.sep, sc.min, #[trigger] r[i])
                        && sc.pos <= r[i].1.start by {
                    if i > 0 {
                        assert(r[i] == rr[i - 1]);
                    }
                }
                assert forall|i: int| 0 <= i < r.len() - 1 implies
                    #[trigger] r[i].1.end <= r[i + 1].1.start by {
                    assert(r[i + 1] == rr[i]);
                    if i > 0 {
                        assert(r[i] == rr[i - 1]);
                    }
                }
            }
        },
    }
}

/// The iterator over uniform-line elements of a byte slice.
///
/// Matches lines made entirely of one delimiter byte (interleaved with
/// `sep`), where the delimiter is accepted by `matches` and occurs at least
/// `min` times. The item's metadata is `make(delimiter)`, and its span is
/// the whole line.
///
/// `matches` is probed over all 256 bytes at construction: when it accepts
/// at most three, the scan is streaming (one search for the delimiter bytes
/// plus a line-start check); otherwise it goes line by line.
#[verifier::reject_recursive_types(T)]
#[verifier::reject_recursive_types(M)]
#[verifier::reject_recursive_types(F)]
pub struct LineUniformIter<'a, T, M, F> where M: Fn(u8) -> bool, F: Fn(u8) -> T {
    src: &'a [u8],
    min: u32,
    eol: u8,
    sep: u8,
    #[allow(dead_code)]
    matches: M,
    make: F,
    pos: usize,
    accept: Vec<bool>,
    needles: [u8; 3],
    nn: usize,
    streaming: bool,
    _t: std::marker::PhantomData<T>,
}

impl<'a, T, M, F> View for LineUniformIter<'a, T, M, F> where M: Fn(u8) -> bool, F: Fn(u8) -> T {
    type V = LineUniformScan;

    closed spec fn view(&self) -> LineUniformScan {
        LineUniformScan {
            src: self.src@,
            min: self.min,
            eol: self.eol,
            sep: self.sep,
            accept: self.accept@,
            needles: self.needles@.take(self.nn as int),
            streaming: self.streaming,
            pos: self.pos as int,
        }
    }
}

impl<'a, T, M, F> LineUniformIter<'a, T, M, F> where M: Fn(u8) -> bool, F: Fn(u8) -> T {
    #[verifier::type_invariant]
    spec fn inv(self) -> bool {
        &&& self.pos <= self.src@.len()
        &&& self.src@.len() <= MAX_INPUT_LEN
        &&& self.accept@.len() == 256
        &&& self.nn <= 3
        &&& forall|c: u8| call_requires(self.make, (c,))
    }

    /// The closure that builds each item's metadata from its delimiter byte.
    pub closed spec fn maker(&self) -> F {
        self.make
    }

    /// Create an iterator over uniform-line elements of `src`.
    pub fn new(src: &'a [u8], min: u32, eol: u8, sep: u8, matches: M, make: F) -> (it: Self)
        requires
            src@.len() <= MAX_INPUT_LEN,
            forall|b: u8| call_requires(matches, (b,)),
            forall|c: u8| call_requires(make, (c,)),
        ensures
            it@.src == src@,
            it@.min == min,
            it@.eol == eol,
            it@.sep == sep,
            it@.pos == 0,
            it@.accept.len() == 256,
            forall|b: u8| call_ensures(matches, (b,), #[trigger] it@.accept[b as int]),
            it@.streaming == (accepted(it@.accept, 256).len() <= 3),
            it@.streaming ==> it@.needles == accepted(it@.accept, 256),
            it.maker() == make,
    {
        let mut needles = [0u8; 3];
        let (probe, accept) = probe_matcher(&matches, &mut needles);
        let (nn, streaming) = match probe {
            Some(n) => (n, true),
            None => (0, false),
        };
        LineUniformIter {
            src,
            min,
            eol,
            sep,
            matches,
            make,
            pos: 0,
            accept,
            needles,
            nn,
            streaming,
            _t: std::marker::PhantomData,
        }
    }

    /// Streaming scan: search for the probed delimiter bytes, check the hit
    /// begins its line, then one forward walk that both validates the line
    /// and finds its end.
    fn next_streaming(&mut self) -> (r: Option<(T, Span)>)
        requires
            old(self)@.streaming,
        ensures
            final(self)@ == old(self)@.at(final(self)@.pos),
            final(self).maker() == old(self).maker(),
            match old(self)@.step() {
                Some((it, np)) => r matches Some((meta, sp)) && sp == it.1 && call_ensures(
                    old(self).maker(),
                    (it.0,),
                    meta,
                ) && final(self)@.pos == np,
                None => r is None && final(self)@.step() is None,
            },
    {
        proof {
            use_type_invariant(&*self);
        }
        let ghost sc0 = self@;
        let src = self.src;
        let len = src.len();
        let eol = self.eol;
        let sep = self.sep;
        let min = self.min;
        loop
            invariant
                self@ == sc0.at(self@.pos),
                sc0 == old(self)@,
                sc0.streaming,
                self.maker() == old(self).maker(),
                sc0.src == src@,
                len == src@.len() <= MAX_INPUT_LEN,
                eol == sc0.eol,
                sep == sc0.sep,
                min == sc0.min,
                0 <= self@.pos <= len,
                self@.step() == sc0.step(),
            decreases len - self@.pos,
        {
            proof {
                use_type_invariant(&*self);
                lemma_findn(src@, self@.pos, self@.needles);
            }
            let p = match find_any_of(&self.needles, self.nn, src, self.pos) {
                Some(p) => p,
                None => {
                    return None;
                },
            };
            proof {
                lemma_find1(src@, p as int, eol);
            }
            if p > 0 && src[p - 1] != eol {
                let le = find_line_end(src, p, eol);
                self.pos = if le < len {
                    le + 1
                } else {
                    len
                };
                continue;
            }
            let delim = src[p];
            let mut count: u32 = 0;
            let mut i = p;
            let mut valid = true;
            while i < len
                invariant_except_break
                    p <= i <= len,
                    len == src@.len() <= MAX_INPUT_LEN,
                    valid,
                    forall|j: int| p <= j < i ==> src@[j] != eol,
                    uniform(src@, p as int, i as int, delim, sep),
                    count == count_of(src@, p as int, i as int, delim),
                ensures
                    p <= i <= len,
                    forall|j: int| p <= j < i ==> src@[j] != eol,
                    count == count_of(src@, p as int, i as int, delim),
                    valid ==> uniform(src@, p as int, i as int, delim, sep),
                    valid ==> i == len || src@[i as int] == eol,
                    !valid ==> i < len && src@[i as int] != eol && src@[i as int] != delim
                        && src@[i as int] != sep,
                decreases len - i,
            {
                let b = src[i];
                if b == eol {
                    break;
                }
                proof {
                    lemma_count_of_le(src@, p as int, i as int, delim);
                }
                if b == delim {
                    count += 1;
                } else if b != sep {
                    valid = false;
                    break;
                }
                i += 1;
            }
            proof {
                if valid && i < len {
                    crate::search::lemma_find1_is(src@, p as int, eol, i as int);
                }
            }
            if valid && count >= min {
                proof {
                    use_type_invariant(&*self);
                }
                let meta = (self.make)(delim);
                let span = Span::new(p as u32, i as u32);
                self.pos = if i < len {
                    i + 1
                } else {
                    len
                };
                return Some((meta, span));
            }
            let le = find_line_end(src, i, eol);
            proof {
                lemma_find1(src@, i as int, eol);
                match crate::search::find1(src@, i as int, eol) {
                    Some(q) => crate::search::lemma_find1_is(src@, p as int, eol, q),
                    None => {},
                }
            }
            self.pos = if le < len {
                le + 1
            } else {
                len
            };
        }
    }

    /// The next item: the first of the remaining items (its metadata built
    /// by `make` from the delimiter byte), which are then the rest; `None`
    /// once none remain.
    pub fn next(&mut self) -> (r: Option<(T, Span)>)
        ensures
            final(self)@ == old(self)@.at(final(self)@.pos),
            final(self).maker() == old(self).maker(),
            match old(self)@.step() {
                Some((it, np)) => r matches Some((meta, sp)) && sp == it.1 && call_ensures(
                    old(self).maker(),
                    (it.0,),
                    meta,
                ) && final(self)@.pos == np,
                None => r is None && final(self)@.remaining() == Seq::<(u8, Span)>::empty(),
            },
            old(self)@.remaining() == (match old(self)@.step() {
                Some((it, _)) => seq![it] + final(self)@.remaining(),
                None => Seq::<(u8, Span)>::empty(),
            }),
    {
        proof {
            use_type_invariant(&*self);
            lemma_step_moves(self@);
        }
        if self.streaming {
            return self.next_streaming();
        }
        let ghost sc0 = self@;
        let src = self.src;
        let len = src.len();
        let eol = self.eol;
        let sep = self.sep;
        let min = self.min;
        loop
            invariant
                self@ == sc0.at(self@.pos),
                sc0 == old(self)@,
                !sc0.streaming,
                self.maker() == old(self).maker(),
                sc0.src == src@,
                len == src@.len() <= MAX_INPUT_LEN,
                eol == sc0.eol,
                sep == sc0.sep,
                min == sc0.min,
                0 <= self@.pos <= len,
                self@.step() == sc0.step(),
            decreases len - self@.pos,
        {
            proof {
                use_type_invariant(&*self);
            }
            if self.pos >= len {
                return None;
            }
            let le = find_line_end(src, self.pos, eol);
            if self.pos < le {
                let delim = src[self.pos];
                if self.accept[delim as usize] {
                    let a = self.pos;
                    let mut count: u32 = 0;
                    let mut valid = true;
                    let mut i = a;
                    while i < le
                        invariant_except_break
                            a <= i <= le <= len,
                            len == src@.len() <= MAX_INPUT_LEN,
                            valid,
                            uniform(src@, a as int, i as int, delim, sep),
                            count == count_of(src@, a as int, i as int, delim),
                        ensures
                            valid ==> i == le && uniform(src@, a as int, le as int, delim, sep)
                                && count == count_of(src@, a as int, le as int, delim),
                            !valid ==> !uniform(src@, a as int, le as int, delim, sep),
                        decreases le - i,
                    {
                        let b = src[i];
                        proof {
                            lemma_count_of_le(src@, a as int, i as int, delim);
                        }
                        if b == delim {
                            count += 1;
                        } else if b != sep {
                            valid = false;
                            break;
                        }
                        i += 1;
                    }
                    if valid && count >= min {
                        proof {
                            use_type_invariant(&*self);
                        }
                        let meta = (self.make)(delim);
                        let span = Span::new(a as u32, le as u32);
                        self.pos = if le < len {
                            le + 1
                        } else {
                            len
                        };
                        proof {
                            lemma_step_moves(sc0);
                        }
                        return Some((meta, span));
                    }
                }
            }
            self.pos = if le < len {
                le + 1
            } else {
                len
            };
        }
    }
}

/// A step of either rule, when it yields, moves strictly forward within the
/// source, so `remaining` unfolds by one item.
proof fn lemma_step_moves(sc: LineUniformScan)
    requires
        0 <= sc.pos <= sc.src.len(),
    ensures
        sc.step() matches Some((it, np)) ==> sc.pos < np <= sc.src.len(),
        sc.step() is None ==> sc.remaining() == Seq::<(u8, Span)>::empty(),
    decreases sc.src.len() - sc.pos,
{
    let s = sc.src;
    let len = s.len() as int;
    if sc.streaming {
        lemma_findn(s, sc.pos, sc.needles);
        match findn(s, sc.pos, sc.needles) {
            None => {},
            Some(p) => {
                lemma_find1(s, p, sc.eol);
                let le = line_end(s, p, sc.eol);
                if p > 0 && s[p - 1] != sc.eol {
                    lemma_step_moves(sc.at(after_line(len, le)));
                } else if !sc.line_ok(p, le, s[p]) {
                    lemma_step_moves(sc.at(after_line(len, le)));
                }
            },
        }
    } else if sc.pos < len {
        let le = line_end(s, sc.pos, sc.eol);
        lemma_find1(s, sc.pos, sc.eol);
        if !(sc.pos < le && sc.accept[s[sc.pos] as int] && sc.line_ok(sc.pos, le, s[sc.pos])) {
            lemma_step_moves(sc.at(after_line(len, le)));
        }
    }
}

} // verus!
