//! [`BlockMarkerIter`]: marker-prefixed block item standalone iterator.
use vstd::prelude::*;
use crate::search::{findn, line_end, lemma_findn, lemma_find1, lemma_findn_skip, find_any_of};
use crate::span::{Span, MAX_INPUT_LEN};
use super::common::{
    after_line, find_line_end, skip_blank, back_blank, lemma_skip_blank, lemma_back_blank,
    lemma_back_blank_from, blank_in,
};
use super::probe::{accepted, probe_matcher};

verus! {

/// The state of a block-marker scan. `accept` is the marker predicate's
/// answer for every byte; when it accepts at most three bytes, `streaming`
/// holds and `needles` are those bytes.
pub struct BlockMarkerScan {
    pub src: Seq<u8>,
    pub eol: u8,
    pub sep: u8,
    pub tab: u8,
    pub accept: Seq<bool>,
    pub needles: Seq<u8>,
    pub streaming: bool,
    pub pos: int,
}

impl BlockMarkerScan {
    /// The same scan resumed at `pos`.
    pub open spec fn at(self, pos: int) -> BlockMarkerScan {
        BlockMarkerScan { pos, ..self }
    }

    /// The next item by the line-by-line rule: on each line from `pos`,
    /// after leading `sep`/`tab`, an accepted marker byte followed (within
    /// the line) by `sep` or `tab` makes an item whose content runs from
    /// after that separator to the end of the line.
    pub open spec fn line_step(self) -> Option<((u8, Span), int)>
        decreases self.src.len() - self.pos,
    {
        let s = self.src;
        let len = s.len() as int;
        if self.pos < 0 || self.pos >= len {
            None
        } else {
            let le = line_end(s, self.pos, self.eol);
            let p = skip_blank(s, self.pos, le, self.sep, self.tab);
            proof {
                lemma_find1(s, self.pos, self.eol);
            }
            if p < le && self.accept[s[p] as int] && p + 1 < le && (s[p + 1] == self.sep || s[p
                + 1] == self.tab) {
                Some(((s[p], Span::mk(p + 2, le)), after_line(len, le)))
            } else {
                self.at(after_line(len, le)).line_step()
            }
        }
    }

    /// The next item by the streaming rule: the next needle byte whose line
    /// holds only `sep`/`tab` before it, followed by `sep` or `tab`; its
    /// content runs from after that separator to the end of the line. A
    /// failed hit rules out the rest of its line.
    pub open spec fn stream_step(self) -> Option<((u8, Span), int)>
        decreases self.src.len() - self.pos,
    {
        let s = self.src;
        let len = s.len() as int;
        if self.pos < 0 {
            None
        } else {
            match findn(s, self.pos, self.needles) {
                None => None,
                Some(p) => {
                    proof {
                        lemma_findn(s, self.pos, self.needles);
                        lemma_find1(s, p, self.eol);
                    }
                    let k = back_blank(s, p, self.sep, self.tab);
                    let skip = after_line(len, line_end(s, p, self.eol));
                    if k > 0 && s[k - 1] != self.eol {
                        self.at(skip).stream_step()
                    } else if p + 1 < len && (s[p + 1] == self.sep || s[p + 1] == self.tab) {
                        proof {
                            lemma_find1(s, p + 2, self.eol);
                        }
                        let le = line_end(s, p + 2, self.eol);
                        Some(((s[p], Span::mk(p + 2, le)), after_line(len, le)))
                    } else {
                        self.at(skip).stream_step()
                    }
                },
            }
        }
    }

    /// The next item: by the streaming rule when `streaming`, else by the
    /// line-by-line rule.
    pub open spec fn step(self) -> Option<((u8, Span), int)> {
        if self.streaming {
            self.stream_step()
        } else {
            self.line_step()
        }
    }

    /// Every item at or after `pos`, in order.
    pub open spec fn remaining(self) -> Seq<(u8, Span)>
        decreases self.src.len() - self.pos,
    {
        match self.step() {
            None => Seq::empty(),
            Some((it, np)) => if np <= self.pos || np > self.src.len() {
                Seq::empty()
            } else {
                seq![it] + self.at(np).remaining()
            },
        }
    }
}

/// What a block-marker item is: its marker byte stands at `start - 2`,
/// preceded on its line only by `sep`/`tab`, followed by `sep` or `tab`; the
/// content runs to the end of the line.
pub open spec fn block_marker_match(s: Seq<u8>, eol: u8, sep: u8, tab: u8, item: (u8, Span)) -> bool {
    let m = item.1.start - 2;
    let e = item.1.end as int;
    &&& 0 <= m && m + 2 <= e <= s.len()
    &&& s[m] == item.0
    &&& (s[m + 1] == sep || s[m + 1] == tab)
    &&& e == line_end(s, m + 2, eol)
    &&& exists|ls: int|
        0 <= ls <= m && (ls == 0 || s[ls - 1] == eol) && #[trigger] blank_in(s, ls, m, sep, tab)
}

/// The item a step yields, and where it resumes: forward, after a line end.
pub open spec fn block_marker_step_ok(sc: BlockMarkerScan, it: (u8, Span), np: int) -> bool {
    &&& sc.pos < np <= sc.src.len()
    &&& sc.pos + 2 <= it.1.start <= it.1.end
    &&& it.1.end < np || it.1.end == np == sc.src.len()
    &&& np == sc.src.len() || sc.src[np - 1] == sc.eol
    &&& block_marker_match(sc.src, sc.eol, sc.sep, sc.tab, it)
}

/// A streaming step moves forward and yields a block-marker item whose
/// marker is one of the needles.
pub proof fn lemma_block_marker_stream_step(sc: BlockMarkerScan)
    requires
        0 <= sc.pos <= sc.src.len() <= u32::MAX,
    ensures
        sc.stream_step() matches Some((it, np)) ==> block_marker_step_ok(sc, it, np)
            && sc.needles.contains(it.0),
    decreases sc.src.len() - sc.pos,
{
    let s = sc.src;
    let len = s.len() as int;
    lemma_findn(s, sc.pos, sc.needles);
    match findn(s, sc.pos, sc.needles) {
        None => {},
        Some(p) => {
            lemma_find1(s, p, sc.eol);
            lemma_back_blank(s, p, sc.sep, sc.tab);
            let k = back_blank(s, p, sc.sep, sc.tab);
            let skip = after_line(len, line_end(s, p, sc.eol));
            if k > 0 && s[k - 1] != sc.eol {
                lemma_block_marker_stream_step(sc.at(skip));
            } else if p + 1 < len && (s[p + 1] == sc.sep || s[p + 1] == sc.tab) {
                lemma_find1(s, p + 2, sc.eol);
                assert(blank_in(s, k, p, sc.sep, sc.tab));
            } else {
                lemma_block_marker_stream_step(sc.at(skip));
            }
        },
    }
}

/// A line-by-line step from a line start moves forward and yields a
/// block-marker item whose marker is accepted.
pub proof fn lemma_block_marker_line_step(sc: BlockMarkerScan)
    requires
        0 <= sc.pos <= sc.src.len() <= u32::MAX,
        sc.pos == 0 || sc.pos == sc.src.len() || sc.src[sc.pos - 1] == sc.eol,
        sc.accept.len() == 256,
    ensures
        sc.line_step() matches Some((it, np)) ==> block_marker_step_ok(sc, it, np)
            && sc.accept[it.0 as int],
    decreases sc.src.len() - sc.pos,
{
    let s = sc.src;
    let len = s.len() as int;
    if sc.pos < len {
        let le = line_end(s, sc.pos, sc.eol);
        lemma_find1(s, sc.pos, sc.eol);
        lemma_skip_blank(s, sc.pos, le, sc.sep, sc.tab);
        let p = skip_blank(s, sc.pos, le, sc.sep, sc.tab);
        if p < le && sc.accept[s[p] as int] && p + 1 < le && (s[p + 1] == sc.sep || s[p + 1]
            == sc.tab) {
            lemma_find1(s, p + 2, sc.eol);
            assert(line_end(s, p + 2, sc.eol) == le);
            assert(blank_in(s, sc.pos, p, sc.sep, sc.tab));
        } else {
            lemma_block_marker_line_step(sc.at(after_line(len, le)));
        }
    }
}



/// The conditions under which the two rules agree: the needles are exactly
/// the accepted bytes, no separator or line terminator is accepted, and the
/// line terminator is not a separator.
pub open spec fn rules_agree_on(sc: BlockMarkerScan) -> bool {
    &&& sc.accept.len() == 256
    &&& forall|b: u8| sc.needles.contains(b) == sc.accept[b as int]
    &&& !sc.accept[sc.eol as int]
    &&& !sc.accept[sc.sep as int]
    &&& !sc.accept[sc.tab as int]
    &&& sc.eol != sc.sep
    &&& sc.eol != sc.tab
}

/// From a line start, the streaming rule and the line-by-line rule give the
/// same next item at the same resume position.
pub proof fn lemma_block_marker_rules_agree(sc: BlockMarkerScan)
    requires
        0 <= sc.pos <= sc.src.len(),
        sc.pos == 0 || sc.pos == sc.src.len() || sc.src[sc.pos - 1] == sc.eol,
        rules_agree_on(sc),
    ensures
        sc.stream_step() == sc.line_step(),
    decreases sc.src.len() - sc.pos,
{
    let s = sc.src;
    let len = s.len() as int;
    if sc.pos < len {
        lemma_find1(s, sc.pos, sc.eol);
        lemma_findn(s, sc.pos, sc.needles);
        let le = line_end(s, sc.pos, sc.eol);
        let next = after_line(len, le);
        let nx = sc.at(next);
        lemma_skip_blank(s, sc.pos, le, sc.sep, sc.tab);
        let p0 = skip_blank(s, sc.pos, le, sc.sep, sc.tab);
        match findn(s, sc.pos, sc.needles) {
            None => {
                lemma_findn(s, next, sc.needles);
                if p0 < le {
                    assert(!sc.needles.contains(s[p0]));
                }
                lemma_block_marker_rules_agree(nx);
            },
            Some(p) => {
                if p < le {
                    lemma_find1(s, p, sc.eol);
                    assert(line_end(s, p, sc.eol) == le);
                    if p < p0 {
                        assert(s[p] == sc.sep || s[p] == sc.tab);
                        assert(false);
                    }
                    lemma_back_blank(s, p, sc.sep, sc.tab);
                    let k = back_blank(s, p, sc.sep, sc.tab);
                    if p == p0 {
                        lemma_back_blank_from(s, sc.pos, p, sc.sep, sc.tab);
                        assert(back_blank(s, sc.pos, sc.sep, sc.tab) == sc.pos);
                        if p + 1 < len && (s[p + 1] == sc.sep || s[p + 1] == sc.tab) {
                            assert(p + 1 < le);
                            lemma_find1(s, p + 2, sc.eol);
                            assert(line_end(s, p + 2, sc.eol) == le);
                        } else {
                            lemma_block_marker_rules_agree(nx);
                        }
                    } else {
                        assert(!sc.needles.contains(s[p0]));
                        if k <= p0 {
                            assert(s[p0] == sc.sep || s[p0] == sc.tab);
                        }
                        assert(s[k - 1] != sc.eol);
                        lemma_block_marker_rules_agree(nx);
                    }
                } else {
                    assert(p != le);
                    assert forall|j: int| sc.pos <= j < next implies !sc.needles.contains(
                        #[trigger] s[j],
                    ) by {}
                    lemma_findn_skip(s, sc.pos, next, sc.needles);
                    if p0 < le {
                        assert(!sc.needles.contains(s[p0]));
                    }
                    lemma_block_marker_rules_agree(nx);
                }
            },
        }
    }
}

/// The streaming rule does not read the rule flag.
proof fn lemma_stream_flag(sc: BlockMarkerScan, flag: bool)
    ensures
        sc.stream_step() == (BlockMarkerScan { streaming: flag, ..sc }).stream_step(),
    decreases sc.src.len() - sc.pos,
{
    let s = sc.src;
    let len = s.len() as int;
    if sc.pos >= 0 {
        lemma_findn(s, sc.pos, sc.needles);
        match findn(s, sc.pos, sc.needles) {
            None => {},
            Some(p) => {
                lemma_find1(s, p, sc.eol);
                let nx = sc.at(after_line(len, line_end(s, p, sc.eol)));
                lemma_stream_flag(nx, flag);
                assert((BlockMarkerScan { streaming: flag, ..sc }).at(nx.pos) == (BlockMarkerScan {
                    streaming: flag,
                    ..nx
                }));
            },
        }
    }
}

/// The line-by-line rule does not read the rule flag.
proof fn lemma_line_flag(sc: BlockMarkerScan, flag: bool)
    ensures
        sc.line_step() == (BlockMarkerScan { streaming: flag, ..sc }).line_step(),
    decreases sc.src.len() - sc.pos,
{
    let s = sc.src;
    let len = s.len() as int;
    if 0 <= sc.pos < len {
        lemma_find1(s, sc.pos, sc.eol);
        let nx = sc.at(after_line(len, line_end(s, sc.pos, sc.eol)));
        lemma_line_flag(nx, flag);
        assert((BlockMarkerScan { streaming: flag, ..sc }).at(nx.pos) == (BlockMarkerScan {
            streaming: flag,
            ..nx
        }));
    }
}

/// The streaming and the line-by-line scans yield the same items: which
/// rule the probe picked does not change what is found.
pub proof fn lemma_block_marker_remaining_agree(sc: BlockMarkerScan)
    requires
        0 <= sc.pos <= sc.src.len() <= u32::MAX,
        sc.pos == 0 || sc.pos == sc.src.len() || sc.src[sc.pos - 1] == sc.eol,
        rules_agree_on(sc),
    ensures
        sc.remaining() == (BlockMarkerScan { streaming: !sc.streaming, ..sc }).remaining(),
    decreases sc.src.len() - sc.pos,
{
    let other = BlockMarkerScan { streaming: !sc.streaming, ..sc };
    lemma_stream_flag(sc, !sc.streaming);
    lemma_line_flag(sc, !sc.streaming);
    lemma_block_marker_rules_agree(sc);
    lemma_block_marker_stream_step(sc);
    lemma_block_marker_line_step(sc);
    assert(sc.step() == other.step());
    match sc.step() {
        None => {},
        Some((it, np)) => {
            lemma_block_marker_remaining_agree(sc.at(np));
            assert(other.at(np) == (BlockMarkerScan { streaming: !sc.streaming, ..sc.at(np) }));
        },
    }
}

/// The line-by-line rule reads the accept table only at bytes of the
/// source.
proof fn lemma_block_marker_line_tables(a: BlockMarkerScan, b: BlockMarkerScan)
    requires
        a.src == b.src,
        a.eol == b.eol,
        a.sep == b.sep,
        a.tab == b.tab,
        a.pos == b.pos,
        forall|i: int|
            0 <= i < a.src.len() ==> a.accept[#[trigger] a.src[i] as int] == b.accept[a.src[i] as int],
    ensures
        a.line_step() == b.line_step(),
    decreases a.src.len() - a.pos,
{
    let s = a.src;
    let len = s.len() as int;
    if 0 <= a.pos < len {
        lemma_find1(s, a.pos, a.eol);
        let le = line_end(s, a.pos, a.eol);
        let p = skip_blank(s, a.pos, le, a.sep, a.tab);
        lemma_skip_blank(s, a.pos, le, a.sep, a.tab);
        if p < le {
            assert(a.accept[s[p] as int] == b.accept[s[p] as int]);
        }
        lemma_block_marker_line_tables(a.at(after_line(len, le)), b.at(after_line(len, le)));
    }
}

/// Two line-by-line scans whose accept tables agree on the source's bytes
/// find the same items.
proof fn lemma_block_marker_line_remaining(a: BlockMarkerScan, b: BlockMarkerScan)
    requires
        a.src == b.src,
        a.eol == b.eol,
        a.sep == b.sep,
        a.tab == b.tab,
        a.pos == b.pos,
        0 <= a.pos,
        !a.streaming,
        !b.streaming,
        forall|i: int|
            0 <= i < a.src.len() ==> a.accept[#[trigger] a.src[i] as int] == b.accept[a.src[i] as int],
    ensures
        a.remaining() == b.remaining(),
    decreases a.src.len() - a.pos,
{
    lemma_block_marker_line_tables(a, b);
    match a.step() {
        None => {},
        Some((it, np)) => {
            if !(np <= a.pos || np > a.src.len()) {
                lemma_block_marker_line_remaining(a.at(np), b.at(np));
            }
        },
    }
}

/// Two marker predicates that agree on every byte of the source find the
/// same items from a line start, whether each is searched for by its
/// needles (when it accepts at most three bytes) or line by line.
pub proof fn lemma_block_marker_matcher_independent(a: BlockMarkerScan, b: BlockMarkerScan)
    requires
        a.src == b.src,
        a.eol == b.eol,
        a.sep == b.sep,
        a.tab == b.tab,
        a.pos == b.pos,
        0 <= a.pos <= a.src.len() <= u32::MAX,
        a.pos == 0 || a.pos == a.src.len() || a.src[a.pos - 1] == a.eol,
        a.accept.len() == 256,
        b.accept.len() == 256,
        forall|i: int|
            0 <= i < a.src.len() ==> a.accept[#[trigger] a.src[i] as int] == b.accept[a.src[i] as int],
        a.streaming ==> rules_agree_on(a),
        b.streaming ==> rules_agree_on(b),
    ensures
        a.remaining() == b.remaining(),
{
    let la = BlockMarkerScan { streaming: false, ..a };
    let lb = BlockMarkerScan { streaming: false, ..b };
    if a.streaming {
        lemma_block_marker_remaining_agree(a);
    } else {
        assert(la == a);
    }
    if b.streaming {
        lemma_block_marker_remaining_agree(b);
    } else {
        assert(lb == b);
    }
    lemma_block_marker_line_remaining(la, lb);
}


/// Completeness of the block-marker scan: when the line at the scan
/// position (a line start) has, after any amount of `sep`/`tab`
/// indentation, an accepted marker at `p` followed by `sep` or `tab`, the
/// scan yields that marker with the rest of the line after the separator,
/// and resumes on the next line.
pub proof fn lemma_block_marker_complete(sc: BlockMarkerScan, p: int)
    requires
        0 <= sc.pos <= p,
        sc.src.len() <= u32::MAX,
        sc.pos == 0 || sc.src[sc.pos - 1] == sc.eol,
        sc.accept.len() == 256,
        sc.streaming ==> rules_agree_on(sc),
        blank_in(sc.src, sc.pos, p, sc.sep, sc.tab),
        sc.src[p] != sc.sep && sc.src[p] != sc.tab,
        p + 1 < line_end(sc.src, sc.pos, sc.eol),
        sc.accept[sc.src[p] as int],
        sc.src[p + 1] == sc.sep || sc.src[p + 1] == sc.tab,
    ensures
        sc.step() == Some(
            (
                (sc.src[p], Span::mk(p + 2, line_end(sc.src, sc.pos, sc.eol))),
                after_line(sc.src.len() as int, line_end(sc.src, sc.pos, sc.eol)),
            ),
        ),
{
    let s = sc.src;
    lemma_find1(s, sc.pos, sc.eol);
    let le = line_end(s, sc.pos, sc.eol);
    lemma_skip_blank(s, sc.pos, le, sc.sep, sc.tab);
    let k = skip_blank(s, sc.pos, le, sc.sep, sc.tab);
    if k < p {
        assert(s[k] == sc.sep || s[k] == sc.tab);
    }
    if k > p {
        assert(s[p] == sc.sep || s[p] == sc.tab);
    }
    assert(k == p);
    if sc.streaming {
        lemma_block_marker_rules_agree(sc);
    }
}

/// Every remaining item of a block-marker scan from a line start is a
/// [`block_marker_match`] at or after the scan position, and the items come
/// in source order without overlap.
pub proof fn lemma_block_marker_remaining(sc: BlockMarkerScan)
    requires
        0 <= sc.pos <= sc.src.len() <= u32::MAX,
        sc.pos == 0 || sc.pos == sc.src.len() || sc.src[sc.pos - 1] == sc.eol,
        sc.accept.len() == 256,
    ensures
        forall|i: int|
            0 <= i < sc.remaining().len() ==>
                block_marker_match(sc.src, sc.eol, sc.sep, sc.tab, #[trigger] sc.remaining()[i])
                    && sc.pos <= sc.remaining()[i].1.start,
        forall|i: int|
            0 <= i < sc.remaining().len() - 1 ==>
                #[trigger] sc.remaining()[i].1.end <= sc.remaining()[i + 1].1.start,
    decreases sc.src.len() - sc.pos,
{
    if sc.streaming {
        lemma_block_marker_stream_step(sc);
    } else {
        lemma_block_marker_line_step(sc);
    }
    match sc.step() {
        None => {},
        Some((it, np)) => {
            if !(np <= sc.pos || np > sc.src.len()) {
                let rest = sc.at(np);
                lemma_block_marker_remaining(rest);
                let r = sc.remaining();
                let rr = rest.remaining();
                assert(r == seq![it] + rr);
                assert forall|i: int| 0 <= i < r.len() implies
                    block_marker_match(sc.src, sc.eol, sc.sep, sc.tab, #[trigger] r[i])
                        && sc.pos <= r[i].1.start by {
                    if i > 0 {
                        assert(r[i] == rr[i - 1]);
                    }
                }
                assert forall|i: int| 0 <= i < r.len() - 1 implies
                    #[trigger] r[i].1.end <= r[i + 1].1.start by {
                    assert(r[i + 1] == rr[i]);
                    if i > 0 {
                        assert(r[i] == rr[i - 1]);
                    }
                }
            }
        },
    }
}

/// The iterator over marker-prefixed block items of a byte slice.
///
/// Matches lines where, after optional leading `sep`/`tab`, a byte accepted
/// by `matches` is followed by `sep` or `tab`; the item content runs from
/// after that separator to the end of the line, and its metadata is
/// `make(marker)`. `matches` is probed over all 256 bytes at construction:
/// when it accepts at most three, the scan is streaming (one search for the
/// marker bytes, then a check that only indentation precedes the hit);
/// otherwise it goes line by line.
#[verifier::reject_recursive_types(T)]
#[verifier::reject_recursive_types(M)]
#[verifier::reject_recursive_types(F)]
pub struct BlockMarkerIter<'a, T, M, F> where M: Fn(u8) -> bool, F: Fn(u8) -> T {
    src: &'a [u8],
    eol: u8,
    sep: u8,
    tab: u8,
    #[allow(dead_code)]
    matches: M,
    make: F,
    pos: usize,
    accept: Vec<bool>,
    needles: [u8; 3],
    nn: usize,
    streaming: bool,
    _t: std::marker::PhantomData<T>,
}

impl<'a, T, M, F> View for BlockMarkerIter<'a, T, M, F> where M: Fn(u8) -> bool, F: Fn(u8) -> T {
    type V = BlockMarkerScan;

    closed spec fn view(&self) -> BlockMarkerScan {
        BlockMarkerScan {
            src: self.src@,
            eol: self.eol,
            sep: self.sep,
            tab: self.tab,
            accept: self.accept@,
            needles: self.needles@.take(self.nn as int),
            streaming: self.streaming,
            pos: self.pos as int,
        }
    }
}

impl<'a, T, M, F> BlockMarkerIter<'a, T, M, F> where M: Fn(u8) -> bool, F: Fn(u8) -> T {
    #[verifier::type_invariant]
    spec fn inv(self) -> bool {
        &&& self.pos <= self.src@.len()
        &&& self.src@.len() <= MAX_INPUT_LEN
        &&& self.accept@.len() == 256
        &&& self.nn <= 3
        &&& forall|c: u8| call_requires(self.make, (c,))
    }

    /// The closure that builds each item's metadata from its marker byte.
    pub closed spec fn maker(&self) -> F {
        self.make
    }

    /// Create an iterator over marker-prefixed block items of `src`.
    pub fn new(src: &'a [u8], eol: u8, sep: u8, tab: u8, matches: M, make: F) -> (it: Self)
        requires
            src@.len() <= MAX_INPUT_LEN,
            forall|b: u8| call_requires(matches, (b,)),
            forall|c: u8| call_requires(make, (c,)),
        ensures
            it@.src == src@,
            it@.eol == eol,
            it@.sep == sep,
            it@.tab == tab,
            it@.pos == 0,
            it@.accept.len() == 256,
            forall|b: u8| call_ensures(matches, (b,), #[trigger] it@.accept[b as int]),
            it@.streaming == (accepted(it@.accept, 256).len() <= 3),
            it@.streaming ==> it@.needles == accepted(it@.accept, 256),
            it.maker() == make,
    {
        let mut needles = [0u8; 3];
        let (probe, accept) = probe_matcher(&matches, &mut needles);
        let (nn, streaming) = match probe {
            Some(n) => (n, true),
            None => (0, false),
        };
        BlockMarkerIter {
            src,
            eol,
            sep,
            tab,
            matches,
            make,
            pos: 0,
            accept,
            needles,
            nn,
            streaming,
            _t: std::marker::PhantomData,
        }
    }

    /// Streaming scan: search for the probed marker bytes, walk back over
    /// `sep`/`tab` indentation to confirm the hit leads its line, then check
    /// the separator after it.
    fn next_streaming(&mut self) -> (r: Option<(T, Span)>)
        requires
            old(self)@.streaming,
        ensures
            final(self)@ == old(self)@.at(final(self)@.pos),
            final(self).maker() == old(self).maker(),
            match old(self)@.step() {
                Some((it, np)) => r matches Some((meta, sp)) && sp == it.1 && call_ensures(
                    old(self).maker(),
                    (it.0,),
                    meta,
                ) && final(self)@.pos == np,
                None => r is None && final(self)@.step() is None,
            },
    {
        proof {
            use_type_invariant(&*self);
        }
        let ghost sc0 = self@;
        let src = self.src;
        let len = src.len();
        let eol = self.eol;
        let sep = self.sep;
        let tab = self.tab;
        loop
            invariant
                self@ == sc0.at(self@.pos),
                sc0 == old(self)@,
                sc0.streaming,
                self.maker() == old(self).maker(),
                sc0.src == src@,
                len == src@.len() <= MAX_INPUT_LEN,
                eol == sc0.eol,
                sep == sc0.sep,
                tab == sc0.tab,
                0 <= self@.pos <= len,
                self@.step() == sc0.step(),
            decreases len - self@.pos,
        {
            proof {
                use_type_invariant(&*self);
                lemma_findn(src@, self@.pos, self@.needles);
            }
            let p = match find_any_of(&self.needles, self.nn, src, self.pos) {
                Some(p) => p,
                None => {
                    return None;
                },
            };
            proof {
                lemma_back_blank(src@, p as int, sep, tab);
                lemma_find1(src@, p as int, eol);
            }
            let mut k = p;
            while k > 0 && (src[k - 1] == sep || src[k - 1] == tab)
                invariant
                    k <= p < len,
                    len == src@.len(),
                    back_blank(src@, k as int, sep, tab) == back_blank(src@, p as int, sep, tab),
                decreases k,
            {
                k -= 1;
            }
            if k > 0 && src[k - 1] != eol {
                let le = find_line_end(src, p, eol);
                self.pos = if le < len {
                    le + 1
                } else {
                    len
                };
                continue;
            }
            let nxt = p + 1;
            if nxt < len && (src[nxt] == sep || src[nxt] == tab) {
                let cs = nxt + 1;
                let le = find_line_end(src, cs, eol);
                proof {
                    use_type_invariant(&*self);
                }
                let meta = (self.make)(src[p]);
                self.pos = if le < len {
                    le + 1
                } else {
                    len
                };
                return Some((meta, Span::new(cs as u32, le as u32)));
            }
            let le = find_line_end(src, p, eol);
            self.pos = if le < len {
                le + 1
            } else {
                len
            };
        }
    }

    /// The next item: the first of the remaining items (its metadata built
    /// by `make` from the marker byte), which are then the rest; `None` once
    /// none remain.
    pub fn next(&mut self) -> (r: Option<(T, Span)>)
        ensures
            final(self)@ == old(self)@.at(final(self)@.pos),
            final(self).maker() == old(self).maker(),
            match old(self)@.step() {
                Some((it, np)) => r matches Some((meta, sp)) && sp == it.1 && call_ensures(
                    old(self).maker(),
                    (it.0,),
                    meta,
                ) && final(self)@.pos == np,
                None => r is None && final(self)@.remaining() == Seq::<(u8, Span)>::empty(),
            },
            old(self)@.remaining() == (match old(self)@.step() {
                Some((it, _)) => seq![it] + final(self)@.remaining(),
                None => Seq::<(u8, Span)>::empty(),
            }),
    {
        proof {
            use_type_invariant(&*self);
            lemma_step_moves(self@);
        }
        if self.streaming {
            return self.next_streaming();
        }
        let ghost sc0 = self@;
        let src = self.src;
        let len = src.len();
        let eol = self.eol;
        let sep = self.sep;
        let tab = self.tab;
        loop
            invariant
                self@ == sc0.at(self@.pos),
                sc0 == old(self)@,
                !sc0.streaming,
                self.maker() == old(self).maker(),
                sc0.src == src@,
                len == src@.len() <= MAX_INPUT_LEN,
                eol == sc0.eol,
                sep == sc0.sep,
                tab == sc0.tab,
                0 <= self@.pos <= len,
                self@.step() == sc0.step(),
            decreases len - self@.pos,
        {
            proof {
                use_type_invariant(&*self);
            }
            if self.pos >= len {
                return None;
            }
            let le = find_line_end(src, self.pos, eol);
            proof {
                lemma_skip_blank(src@, self@.pos, le as int, sep, tab);
            }
            let mut p = self.pos;
            while p < le && (src[p] == sep || src[p] == tab)
                invariant
                    self@.pos <= p <= le <= len,
                    len == src@.len(),
                    skip_blank(src@, p as int, le as int, sep, tab) == skip_blank(
                        src@,
                        self@.pos,
                        le as int,
                        sep,
                        tab,
                    ),
                decreases le - p,
            {
                p += 1;
            }
            if p < le && self.accept[src[p] as usize] {
                let nxt = p + 1;
                if nxt < le && (src[nxt] == sep || src[nxt] == tab) {
                    let cs = nxt + 1;
                    proof {
                        use_type_invariant(&*self);
                    }
                    let meta = (self.make)(src[p]);
                    let span = Span::new(cs as u32, le as u32);
                    self.pos = if le < len {
                        le + 1
                    } else {
                        len
                    };
                    proof {
                        lemma_step_moves(sc0);
                    }
                    return Some((meta, span));
                }
            }
            self.pos = if le < len {
                le + 1
            } else {
                len
            };
        }
    }
}

/// A step of either rule, when it yields, moves strictly forward within the
/// source, so `remaining` unfolds by one item.
proof fn lemma_step_moves(sc: BlockMarkerScan)
    requires
        0 <= sc.pos <= sc.src.len(),
    ensures
        sc.step() matches Some((it, np)) ==> sc.pos < np <= sc.src.len(),
        sc.step() is None ==> sc.remaining() == Seq::<(u8, Span)>::empty(),
    decreases sc.src.len() - sc.pos,
{
    let s = sc.src;
    let len = s.len() as int;
    if sc.streaming {
        lemma_findn(s, sc.pos, sc.needles);
        match findn(s, sc.pos, sc.needles) {
            None => {},
            Some(p) => {
                lemma_find1(s, p, sc.eol);
                let k = back_blank(s, p, sc.sep, sc.tab);
                let skip = after_line(len, line_end(s, p, sc.eol));
                if k > 0 && s[k - 1] != sc.eol {
                    lemma_step_moves(sc.at(skip));
                } else if p + 1 < len && (s[p + 1] == sc.sep || s[p + 1] == sc.tab) {
                    lemma_find1(s, p + 2, sc.eol);
                } else {
                    lemma_step_moves(sc.at(skip));
                }
            },
        }
    } else if sc.pos < len {
        let le = line_end(s, sc.pos, sc.eol);
        lemma_find1(s, sc.pos, sc.eol);
        let p = skip_blank(s, sc.pos, le, sc.sep, sc.tab);
        if !(p < le && sc.accept[s[p] as int] && p + 1 < le && (s[p + 1] == sc.sep || s[p + 1]
            == sc.tab)) {
            lemma_step_moves(sc.at(after_line(len, le)));
        }
    }
}

} // verus!
