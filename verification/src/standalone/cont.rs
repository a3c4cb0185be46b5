//! [`ContIter`]: line-continuation block standalone iterator, nesting-aware.
use vstd::prelude::*;
use crate::search::{find1, line_end, lemma_find1, find_byte};
use crate::span::{Span, MAX_INPUT_LEN};
use super::common::{after_line, find_line_end};

verus! {

/// The size of the fixed frame stack, and so the ceiling on the nesting cap
/// passed to [`ContIter::new`]: no line opens more frames than this.
pub const MAX_DEPTH: usize = 32;

/// The spans of the frames `open[from..]`, all closing at `end`, innermost
/// first.
pub open spec fn close_spans(open: Seq<u32>, from: int, end: int) -> Seq<Span> {
    Seq::new((open.len() - from) as nat, |j: int| Span::mk(open[open.len() - 1 - j] as int, end))
}

/// The state of a continuation-block scan: the line-start position, the
/// starts of the open frames (outermost first), and the closed spans not
/// yet handed out (in emit order).
pub struct ContScan {
    pub src: Seq<u8>,
    pub byte: u8,
    pub eol: u8,
    pub sep: u8,
    pub tab: u8,
    pub cap: int,
    pub pos: int,
    pub open: Seq<u32>,
    pub pending: Seq<Span>,
}

impl ContScan {
    /// The same scan at `pos`.
    pub open spec fn at(self, pos: int) -> ContScan {
        ContScan { pos, ..self }
    }

    /// A marker byte at `cur`, before the line end `le`.
    pub open spec fn is_marker(self, cur: int, le: int) -> bool {
        0 <= cur < le && cur < self.src.len() && self.src[cur] == self.byte
    }

    /// The position just past the marker at `p`: the marker and one
    /// optional `sep`/`tab` after it.
    pub open spec fn consume(self, p: int, le: int) -> int {
        if p + 1 < le && (self.src[p + 1] == self.sep || self.src[p + 1] == self.tab) {
            p + 2
        } else {
            p + 1
        }
    }

    /// Walking the markers from `cur`, at most `n` of them: how many follow
    /// one another, and where the walk stops.
    pub open spec fn peel(self, cur: int, le: int, n: int) -> (int, int)
        decreases n,
    {
        if n > 0 && self.is_marker(cur, le) {
            let r = self.peel(self.consume(cur, le), le, n - 1);
            (r.0 + 1, r.1)
        } else {
            (0, cur)
        }
    }

    /// The starts of the frames that the markers from `cur` open, at most
    /// `room` of them.
    pub open spec fn opens(self, cur: int, le: int, room: int) -> Seq<u32>
        decreases room,
    {
        if room > 0 && self.is_marker(cur, le) {
            seq![cur as u32] + self.opens(self.consume(cur, le), le, room - 1)
        } else {
            Seq::empty()
        }
    }

    /// The state after the marker line that starts at `ls`: the open frames
    /// continue while the line repeats their markers; the first missing
    /// marker closes that frame and all deeper ones at `ls`; when every
    /// frame continues, further markers open new frames, up to `cap` open.
    pub open spec fn after_marker_line(self, ls: int) -> ContScan {
        let len = self.src.len() as int;
        let le = line_end(self.src, ls, self.eol);
        let pr = self.peel(ls, le, self.open.len() as int);
        let np = after_line(len, le);
        if pr.0 < self.open.len() {
            ContScan {
                pos: np,
                open: self.open.take(pr.0),
                pending: close_spans(self.open, pr.0, ls),
                ..self
            }
        } else {
            ContScan {
                pos: np,
                open: self.open + self.opens(pr.1, le, self.cap - self.open.len()),
                pending: Seq::empty(),
                ..self
            }
        }
    }

    /// The state with every open frame closed at `end` and the scan at
    /// `pos`.
    pub open spec fn close_all(self, end: int, pos: int) -> ContScan {
        ContScan {
            pos,
            open: Seq::empty(),
            pending: close_spans(self.open, 0, end),
            ..self
        }
    }

    /// The next span and the state after it. Closed spans are handed out
    /// first. At the end of the source every open frame closes there. With
    /// frames open, the line at `pos` continues them only if it begins with
    /// the marker; otherwise all close at its start. With none open, the
    /// next marker that begins its line starts a run.
    pub open spec fn step(self) -> Option<(Span, ContScan)>
        decreases self.src.len() - self.pos, self.open.len(),
    {
        let len = self.src.len() as int;
        if self.pending.len() > 0 {
            Some((self.pending[0], ContScan { pending: self.pending.drop_first(), ..self }))
        } else if self.pos < 0 || self.pos > len {
            None
        } else if self.open.len() > 0 && self.pos >= len {
            self.close_all(len, self.pos).step()
        } else {
            proof {
                lemma_find1(self.src, self.pos, self.byte);
            }
            match find1(self.src, self.pos, self.byte) {
                Some(q) => {
                    proof {
                        lemma_find1(self.src, q, self.eol);
                    }
                    if self.open.len() > 0 {
                        if q == self.pos {
                            self.after_marker_line(q).step()
                        } else {
                            self.close_all(self.pos, q).step()
                        }
                    } else if q > 0 && self.src[q - 1] != self.eol {
                        self.at(q + 1).step()
                    } else {
                        self.after_marker_line(q).step()
                    }
                },
                None => if self.open.len() > 0 {
                    self.close_all(self.pos, len).step()
                } else {
                    None
                },
            }
        }
    }

    /// A measure that every transition of the scan lowers.
    pub open spec fn measure(self) -> nat {
        if 0 <= self.pos <= self.src.len() {
            (100 * (self.src.len() - self.pos) + 2 * self.open.len() + self.pending.len()) as nat
        } else {
            0
        }
    }

    /// Bounds every reachable state keeps: the position within the source,
    /// and at most `cap <= MAX_DEPTH` frames open or awaiting hand-out.
    pub open spec fn wf(self) -> bool {
        &&& 0 <= self.pos <= self.src.len()
        &&& 0 <= self.cap <= MAX_DEPTH
        &&& self.open.len() + self.pending.len() <= self.cap
    }

    /// Every span from the current state on, in order.
    pub open spec fn remaining(self) -> Seq<Span>
        decreases self.measure(),
    {
        match self.step() {
            None => Seq::empty(),
            Some((sp, nx)) => if nx.measure() < self.measure() {
                seq![sp] + nx.remaining()
            } else {
                Seq::empty()
            },
        }
    }
}

proof fn lemma_peel(sc: ContScan, cur: int, le: int, n: int)
    requires
        0 <= cur,
        0 <= n,
    ensures
        0 <= sc.peel(cur, le, n).0 <= n,
        cur <= sc.peel(cur, le, n).1,
        sc.peel(cur, le, n).0 < n ==> !sc.is_marker(sc.peel(cur, le, n).1, le),
        sc.peel(cur, le, n).1 <= cur + 2 * sc.peel(cur, le, n).0,
    decreases n,
{
    if n > 0 && sc.is_marker(cur, le) {
        lemma_peel(sc, sc.consume(cur, le), le, n - 1);
    }
}

proof fn lemma_opens(sc: ContScan, cur: int, le: int, room: int)
    requires
        0 <= cur,
        le <= sc.src.len() <= u32::MAX,
    ensures
        sc.opens(cur, le, room).len() <= if room > 0 {
            room
        } else {
            0
        },
        forall|i: int|
            0 <= i < sc.opens(cur, le, room).len() ==> cur <= #[trigger] sc.opens(cur, le, room)[i]
                < le && sc.src[sc.opens(cur, le, room)[i] as int] == sc.byte,
        forall|i: int, j: int|
            0 <= i < j < sc.opens(cur, le, room).len() ==> #[trigger] sc.opens(cur, le, room)[i]
                < #[trigger] sc.opens(cur, le, room)[j],
    decreases room,
{
    if room > 0 && sc.is_marker(cur, le) {
        let nx = sc.consume(cur, le);
        lemma_opens(sc, nx, le, room - 1);
        let rest = sc.opens(nx, le, room - 1);
        let all = sc.opens(cur, le, room);
        assert(all == seq![cur as u32] + rest);
        assert forall|i: int| 0 <= i < all.len() implies cur <= #[trigger] all[i] < le
            && sc.src[all[i] as int] == sc.byte by {
            if i > 0 {
                assert(all[i] == rest[i - 1]);
            }
        }
        assert forall|i: int, j: int| 0 <= i < j < all.len() implies #[trigger] all[i]
            < #[trigger] all[j] by {
            assert(all[j] == rest[j - 1]);
            if i > 0 {
                assert(all[i] == rest[i - 1]);
            }
        }
    }
}

/// Each transition of `step` keeps the bounds and lowers the measure.
proof fn lemma_step_measure(sc: ContScan)
    requires
        sc.wf(),
        sc.src.len() <= u32::MAX,
    ensures
        sc.step() matches Some((sp, nx)) ==> nx.wf() && nx.measure() < sc.measure()
            && nx.src == sc.src && nx.byte == sc.byte && nx.eol == sc.eol && nx.sep == sc.sep
            && nx.tab == sc.tab && nx.cap == sc.cap,
    decreases sc.src.len() - sc.pos, sc.open.len(),
{
    let len = sc.src.len() as int;
    if sc.pending.len() > 0 {
    } else if sc.open.len() > 0 && sc.pos >= len {
        lemma_step_measure(sc.close_all(len, sc.pos));
    } else {
        lemma_find1(sc.src, sc.pos, sc.byte);
        match find1(sc.src, sc.pos, sc.byte) {
            Some(q) => {
                lemma_find1(sc.src, q, sc.eol);
                if sc.open.len() > 0 {
                    if q == sc.pos {
                        lemma_marker_line_wf(sc, q);
                        lemma_step_measure(sc.after_marker_line(q));
                    } else {
                        lemma_step_measure(sc.close_all(sc.pos, q));
                    }
                } else if q > 0 && sc.src[q - 1] != sc.eol {
                    lemma_step_measure(sc.at(q + 1));
                } else {
                    lemma_marker_line_wf(sc, q);
                    lemma_step_measure(sc.after_marker_line(q));
                }
            },
            None => if sc.open.len() > 0 {
                lemma_step_measure(sc.close_all(sc.pos, len));
            },
        }
    }
}

/// A marker line keeps the bounds and moves strictly past its start.
proof fn lemma_marker_line_wf(sc: ContScan, ls: int)
    requires
        sc.wf(),
        sc.src.len() <= u32::MAX,
        sc.pending.len() == 0,
        sc.pos <= ls < sc.src.len(),
    ensures
        sc.after_marker_line(ls).wf(),
        ls < sc.after_marker_line(ls).pos,
        sc.after_marker_line(ls).measure() < sc.measure(),
{
    let len = sc.src.len() as int;
    lemma_find1(sc.src, ls, sc.eol);
    let le = line_end(sc.src, ls, sc.eol);
    lemma_peel(sc, ls, le, sc.open.len() as int);
    let pr = sc.peel(ls, le, sc.open.len() as int);
    if pr.0 >= sc.open.len() {
        lemma_opens(sc, pr.1, le, sc.cap - sc.open.len());
    }
}

/// `p` is where a line begins after a line end, or the end of the source.
pub open spec fn line_boundary(s: Seq<u8>, eol: u8, p: int) -> bool {
    p == s.len() || (0 < p <= s.len() && s[p - 1] == eol)
}

/// A continuation scan that is under way: the bounds; while frames are
/// open, the position is a line boundary; the open frames' starts at
/// marker bytes and strictly increasing before `pos`; and the closed spans
/// awaiting hand-out sharing one end, a line boundary, innermost (latest
/// start) first, each starting at a marker byte after every open frame's
/// start.
pub open spec fn frames_ok(sc: ContScan) -> bool {
    let s = sc.src;
    &&& sc.wf()
    &&& sc.open.len() > 0 ==> line_boundary(s, sc.eol, sc.pos)
    &&& forall|i: int|
        0 <= i < sc.pending.len() ==> line_boundary(s, sc.eol, #[trigger] sc.pending[i].end as int)
    &&& forall|i: int|
        0 <= i < sc.open.len() ==> #[trigger] sc.open[i] < sc.pos && sc.open[i] < s.len()
            && s[sc.open[i] as int] == sc.byte
    &&& forall|i: int, j: int|
        0 <= i < j < sc.open.len() ==> #[trigger] sc.open[i] < #[trigger] sc.open[j]
    &&& forall|i: int|
        0 <= i < sc.pending.len() ==> #[trigger] sc.pending[i].start < sc.pending[i].end <= s.len()
            && s[sc.pending[i].start as int] == sc.byte
    &&& forall|i: int, j: int|
        0 <= i < j < sc.pending.len() ==> #[trigger] sc.pending[i].end == #[trigger] sc.pending[
            j].end && sc.pending[j].start < sc.pending[i].start
    &&& forall|i: int, j: int|
        0 <= i < sc.open.len() && 0 <= j < sc.pending.len() ==> #[trigger] sc.open[i]
            < #[trigger] sc.pending[j].start
}

/// Closing frames keeps the frame properties, when they close at or before
/// the scan's position.
proof fn lemma_close_ok(sc: ContScan, from: int, end: int, pos: int)
    requires
        frames_ok(sc),
        sc.pending.len() == 0,
        0 <= from <= sc.open.len(),
        sc.pos <= end <= sc.src.len(),
        end <= pos <= sc.src.len(),
        end <= sc.src.len() <= u32::MAX,
        line_boundary(sc.src, sc.eol, end),
        from > 0 ==> line_boundary(sc.src, sc.eol, pos),
    ensures
        frames_ok(
            ContScan {
                pos,
                open: sc.open.take(from),
                pending: close_spans(sc.open, from, end),
                ..sc
            },
        ),
{
    let nx = ContScan {
        pos,
        open: sc.open.take(from),
        pending: close_spans(sc.open, from, end),
        ..sc
    };
    let n = sc.open.len() as int;
    assert forall|i: int| 0 <= i < nx.pending.len() implies #[trigger] nx.pending[i].start
        < nx.pending[i].end <= sc.src.len() && sc.src[nx.pending[i].start as int] == sc.byte by {
        assert(nx.pending[i] == Span::mk(sc.open[n - 1 - i] as int, end));
    }
    assert forall|i: int| 0 <= i < nx.pending.len() implies line_boundary(
        sc.src,
        sc.eol,
        #[trigger] nx.pending[i].end as int,
    ) by {
        assert(nx.pending[i] == Span::mk(sc.open[n - 1 - i] as int, end));
    }
    assert forall|i: int, j: int| 0 <= i < j < nx.pending.len() implies #[trigger] nx.pending[i].end
        == #[trigger] nx.pending[j].end && nx.pending[j].start < nx.pending[i].start by {
        assert(nx.pending[i] == Span::mk(sc.open[n - 1 - i] as int, end));
        assert(nx.pending[j] == Span::mk(sc.open[n - 1 - j] as int, end));
        assert(sc.open[n - 1 - j] < sc.open[n - 1 - i]);
    }
    assert forall|i: int, j: int| 0 <= i < nx.open.len() && 0 <= j < nx.pending.len() implies
        #[trigger] nx.open[i] < #[trigger] nx.pending[j].start by {
        assert(nx.pending[j] == Span::mk(sc.open[n - 1 - j] as int, end));
        assert(nx.open[i] == sc.open[i]);
        assert(sc.open[i] < sc.open[n - 1 - j]);
    }
}

/// Every span a continuation scan hands out starts at a marker byte and
/// ends after it, within the source; the scan stays well formed, so spans
/// closed together are handed out innermost first with one shared end.
pub proof fn lemma_cont_step(sc: ContScan)
    requires
        frames_ok(sc),
        sc.src.len() <= u32::MAX,
    ensures
        sc.step() matches Some((sp, nx)) ==> frames_ok(nx) && sp.start < sp.end <= sc.src.len()
            && sc.src[sp.start as int] == sc.byte && line_boundary(sc.src, sc.eol, sp.end as int)
            && nx.src == sc.src,
    decreases sc.src.len() - sc.pos, sc.open.len(),
{
    let s = sc.src;
    let len = s.len() as int;
    if sc.pending.len() > 0 {
        let nx = ContScan { pending: sc.pending.drop_first(), ..sc };
        assert forall|i: int, j: int| 0 <= i < j < nx.pending.len() implies #[trigger] nx.pending[
            i].end == #[trigger] nx.pending[j].end && nx.pending[j].start < nx.pending[i].start by {
            assert(nx.pending[i] == sc.pending[i + 1]);
            assert(nx.pending[j] == sc.pending[j + 1]);
        }
        assert forall|i: int, j: int| 0 <= i < nx.open.len() && 0 <= j < nx.pending.len() implies
            #[trigger] nx.open[i] < #[trigger] nx.pending[j].start by {
            assert(nx.pending[j] == sc.pending[j + 1]);
        }
        assert forall|i: int| 0 <= i < nx.pending.len() implies #[trigger] nx.pending[i].start
            < nx.pending[i].end <= s.len() && s[nx.pending[i].start as int] == sc.byte by {
            assert(nx.pending[i] == sc.pending[i + 1]);
        }
        assert forall|i: int| 0 <= i < nx.pending.len() implies line_boundary(
            s,
            sc.eol,
            #[trigger] nx.pending[i].end as int,
        ) by {
            assert(nx.pending[i] == sc.pending[i + 1]);
        }
    } else if sc.pos < 0 || sc.pos > len {
    } else if sc.open.len() > 0 && sc.pos >= len {
        lemma_close_ok(sc, 0, len, sc.pos);
        assert(sc.open.take(0) =~= Seq::<u32>::empty());
        lemma_cont_step(sc.close_all(len, sc.pos));
    } else {
        lemma_find1(s, sc.pos, sc.byte);
        match find1(s, sc.pos, sc.byte) {
            Some(q) => {
                lemma_find1(s, q, sc.eol);
                if sc.open.len() > 0 {
                    if q == sc.pos {
                        lemma_marker_line_ok(sc, q);
                        lemma_cont_step(sc.after_marker_line(q));
                    } else {
                        lemma_close_ok(sc, 0, sc.pos, q);
                        assert(sc.open.take(0) =~= Seq::<u32>::empty());
                        lemma_cont_step(sc.close_all(sc.pos, q));
                    }
                } else if q > 0 && s[q - 1] != sc.eol {
                    lemma_cont_step(sc.at(q + 1));
                } else {
                    lemma_marker_line_ok(sc, q);
                    lemma_cont_step(sc.after_marker_line(q));
                }
            },
            None => if sc.open.len() > 0 {
                lemma_close_ok(sc, 0, sc.pos, len);
                assert(sc.open.take(0) =~= Seq::<u32>::empty());
                lemma_cont_step(sc.close_all(sc.pos, len));
            },
        }
    }
}

/// A marker line keeps the frame properties.
proof fn lemma_marker_line_ok(sc: ContScan, ls: int)
    requires
        frames_ok(sc),
        sc.pending.len() == 0,
        sc.pos <= ls < sc.src.len() <= u32::MAX,
        ls == 0 || sc.src[ls - 1] == sc.eol || ls == sc.pos,
        sc.open.len() > 0 ==> ls == sc.pos,
    ensures
        frames_ok(sc.after_marker_line(ls)),
{
    let s = sc.src;
    let len = s.len() as int;
    lemma_find1(s, ls, sc.eol);
    let le = line_end(s, ls, sc.eol);
    let np = after_line(len, le);
    lemma_marker_line_wf(sc, ls);
    lemma_peel(sc, ls, le, sc.open.len() as int);
    let pr = sc.peel(ls, le, sc.open.len() as int);
    if pr.0 < sc.open.len() {
        lemma_close_ok(sc, pr.0, ls, np);
    } else {
        let add = sc.opens(pr.1, le, sc.cap - sc.open.len());
        lemma_opens(sc, pr.1, le, sc.cap - sc.open.len());
        let nx = sc.after_marker_line(ls);
        assert(nx.open == sc.open + add);
        assert forall|i: int| 0 <= i < nx.open.len() implies #[trigger] nx.open[i] < nx.pos
            && nx.open[i] < s.len() && s[nx.open[i] as int] == sc.byte by {
            if i >= sc.open.len() {
                assert(nx.open[i] == add[i - sc.open.len()]);
            }
        }
        assert forall|i: int, j: int| 0 <= i < j < nx.open.len() implies #[trigger] nx.open[i]
            < #[trigger] nx.open[j] by {
            if j >= sc.open.len() {
                assert(nx.open[j] == add[j - sc.open.len()]);
                if i >= sc.open.len() {
                    assert(nx.open[i] == add[i - sc.open.len()]);
                }
            }
        }
    }
}

/// Two spans handed out in this order keep the close order and the nesting:
/// the earlier one ends first, or ends with the later one and starts after
/// it (innermost first); and they are disjoint, or the earlier one lies
/// inside the later one.
pub open spec fn cont_ordered(a: Span, b: Span) -> bool {
    &&& a.end < b.end || (a.end == b.end && b.start < a.start)
    &&& a.end <= b.start || (b.start < a.start && a.end <= b.end)
}

/// Every pair of `r`, in order, is [`cont_ordered`].
pub open spec fn cont_order_ok(r: Seq<Span>) -> bool {
    forall|i: int, j: int| 0 <= i < j < r.len() ==> cont_ordered(#[trigger] r[i], #[trigger] r[j])
}

/// A span that the scan has yet to close: it ends at or after the scan
/// position, and starts at or after it or at an open frame's start.
spec fn cont_future(sc: ContScan, x: Span) -> bool {
    &&& x.start < x.end <= sc.src.len()
    &&& sc.pos <= x.end
    &&& (sc.pos <= x.start || exists|k: int| 0 <= k < sc.open.len() && sc.open[k] == x.start)
}

/// Spans awaiting hand-out closed before the scan position, unless the
/// scan is done (no frame open, at the end of the source).
spec fn pending_behind(sc: ContScan) -> bool {
    sc.pending.len() > 0 ==> (sc.pending[0].end < sc.pos || (sc.open.len() == 0 && sc.pos
        == sc.src.len()))
}

/// Two states whose next steps agree have the same remaining spans.
proof fn lemma_cont_same_remaining(sc: ContScan, mid: ContScan)
    requires
        sc.step() == mid.step(),
        mid.wf(),
        mid.src.len() <= u32::MAX,
        0 <= sc.pos <= sc.src.len(),
        mid.measure() <= sc.measure(),
    ensures
        sc.remaining() == mid.remaining(),
{
    lemma_step_measure(mid);
}

/// The remaining spans of a scan under way begin with the spans awaiting
/// hand-out, the rest are yet to close, and every pair is in order.
proof fn lemma_cont_order_from(sc: ContScan)
    requires
        frames_ok(sc),
        pending_behind(sc),
        sc.src.len() <= u32::MAX,
    ensures
        cont_order_ok(sc.remaining()),
        forall|i: int|
            0 <= i < sc.remaining().len() ==> if i < sc.pending.len() {
                #[trigger] sc.remaining()[i] == sc.pending[i]
            } else {
                cont_future(sc, sc.remaining()[i])
            },
    decreases sc.measure(),
{
    let s = sc.src;
    let len = s.len() as int;
    lemma_step_measure(sc);
    lemma_cont_step(sc);
    if sc.pending.len() > 0 {
        let p0 = sc.pending[0];
        let nx = ContScan { pending: sc.pending.drop_first(), ..sc };
        assert(sc.step() == Some((p0, nx)));
        assert(pending_behind(nx)) by {
            if nx.pending.len() > 0 {
                assert(nx.pending[0] == sc.pending[1]);
            }
        }
        lemma_cont_order_from(nx);
        let r = sc.remaining();
        let rr = nx.remaining();
        assert(r == seq![p0] + rr);
        assert forall|i: int| 0 <= i < r.len() implies if i < sc.pending.len() {
            #[trigger] r[i] == sc.pending[i]
        } else {
            cont_future(sc, r[i])
        } by {
            if i > 0 {
                assert(r[i] == rr[i - 1]);
                if i < sc.pending.len() {
                    assert(nx.pending[i - 1] == sc.pending[i]);
                }
            }
        }
        assert forall|i: int, j: int| 0 <= i < j < r.len() implies cont_ordered(
            #[trigger] r[i],
            #[trigger] r[j],
        ) by {
            assert(r[j] == rr[j - 1]);
            if i > 0 {
                assert(r[i] == rr[i - 1]);
            } else {
                let y = rr[j - 1];
                if j - 1 < nx.pending.len() {
                    assert(y == sc.pending[j]);
                } else {
                    assert(cont_future(nx, y));
                    if sc.pos > y.start {
                        let k = choose|k: int| 0 <= k < sc.open.len() && sc.open[k] == y.start;
                        assert(sc.open[k] < sc.pending[0].start);
                    }
                }
            }
        }
    } else if sc.open.len() > 0 && sc.pos >= len {
        let mid = sc.close_all(len, sc.pos);
        lemma_close_ok(sc, 0, len, sc.pos);
        assert(sc.open.take(0) =~= Seq::<u32>::empty());
        lemma_cont_same_remaining(sc, mid);
        lemma_cont_order_from(mid);
        lemma_cont_close_future(sc, mid, len);
    } else {
        lemma_find1(s, sc.pos, sc.byte);
        match find1(s, sc.pos, sc.byte) {
            Some(q) => {
                lemma_find1(s, q, sc.eol);
                if sc.open.len() > 0 {
                    if q == sc.pos {
                        let mid = sc.after_marker_line(q);
                        lemma_marker_line_ok(sc, q);
                        lemma_marker_line_wf(sc, q);
                        lemma_cont_same_remaining(sc, mid);
                        lemma_cont_marker_behind(sc, q);
                        lemma_cont_order_from(mid);
                        lemma_cont_marker_future(sc, q);
                    } else {
                        let mid = sc.close_all(sc.pos, q);
                        lemma_close_ok(sc, 0, sc.pos, q);
                        assert(sc.open.take(0) =~= Seq::<u32>::empty());
                        lemma_cont_same_remaining(sc, mid);
                        lemma_cont_order_from(mid);
                        lemma_cont_close_future(sc, mid, sc.pos);
                    }
                } else if q > 0 && s[q - 1] != sc.eol {
                    let mid = sc.at(q + 1);
                    lemma_cont_same_remaining(sc, mid);
                    lemma_cont_order_from(mid);
                    assert forall|i: int| 0 <= i < mid.remaining().len() implies cont_future(
                        sc,
                        #[trigger] mid.remaining()[i],
                    ) by {
                        assert(cont_future(mid, mid.remaining()[i]));
                    }
                } else {
                    let mid = sc.after_marker_line(q);
                    lemma_marker_line_ok(sc, q);
                    lemma_marker_line_wf(sc, q);
                    lemma_cont_same_remaining(sc, mid);
                    lemma_cont_marker_behind(sc, q);
                    lemma_cont_order_from(mid);
                    lemma_cont_marker_future(sc, q);
                }
            },
            None => if sc.open.len() > 0 {
                let mid = sc.close_all(sc.pos, len);
                lemma_close_ok(sc, 0, sc.pos, len);
                assert(sc.open.take(0) =~= Seq::<u32>::empty());
                lemma_cont_same_remaining(sc, mid);
                lemma_cont_order_from(mid);
                lemma_cont_close_future(sc, mid, sc.pos);
            },
        }
    }
}

/// After closing every frame at `end` (at or after the position), what the
/// closed state hands out is yet to close for the state before.
proof fn lemma_cont_close_future(sc: ContScan, mid: ContScan, end: int)
    requires
        frames_ok(sc),
        sc.pending.len() == 0,
        sc.pos <= end <= sc.src.len() <= u32::MAX,
        mid == sc.close_all(end, mid.pos),
        sc.pos <= mid.pos,
        forall|i: int|
            0 <= i < mid.remaining().len() ==> if i < mid.pending.len() {
                #[trigger] mid.remaining()[i] == mid.pending[i]
            } else {
                cont_future(mid, mid.remaining()[i])
            },
    ensures
        forall|i: int| 0 <= i < mid.remaining().len() ==> cont_future(sc, #[trigger] mid.remaining()[i]),
{
    let n = sc.open.len() as int;
    assert forall|i: int| 0 <= i < mid.remaining().len() implies cont_future(
        sc,
        #[trigger] mid.remaining()[i],
    ) by {
        let x = mid.remaining()[i];
        if i < mid.pending.len() {
            assert(x == mid.pending[i]);
            assert(mid.pending[i] == Span::mk(sc.open[n - 1 - i] as int, end));
            assert(sc.open[n - 1 - i] < sc.pos);
            assert(x.start == sc.open[n - 1 - i]);
            assert(x.end == end);
        } else {
            assert(cont_future(mid, x));
            assert(mid.open.len() == 0);
        }
    }
}

/// The state after a marker line at `ls` has its closed spans behind it.
proof fn lemma_cont_marker_behind(sc: ContScan, ls: int)
    requires
        frames_ok(sc),
        sc.pending.len() == 0,
        sc.pos <= ls < sc.src.len() <= u32::MAX,
    ensures
        pending_behind(sc.after_marker_line(ls)),
{
    lemma_marker_line_wf(sc, ls);
    let le = line_end(sc.src, ls, sc.eol);
    lemma_peel(sc, ls, le, sc.open.len() as int);
}

/// What the state after a marker line at the position hands out is yet to
/// close for the state before.
proof fn lemma_cont_marker_future(sc: ContScan, ls: int)
    requires
        frames_ok(sc),
        sc.pending.len() == 0,
        sc.pos <= ls < sc.src.len() <= u32::MAX,
        sc.open.len() > 0 ==> ls == sc.pos,
        forall|i: int|
            0 <= i < sc.after_marker_line(ls).remaining().len() ==> if i < sc.after_marker_line(
                ls,
            ).pending.len() {
                #[trigger] sc.after_marker_line(ls).remaining()[i] == sc.after_marker_line(
                    ls,
                ).pending[i]
            } else {
                cont_future(sc.after_marker_line(ls), sc.after_marker_line(ls).remaining()[i])
            },
    ensures
        forall|i: int|
            0 <= i < sc.after_marker_line(ls).remaining().len() ==> cont_future(
                sc,
                #[trigger] sc.after_marker_line(ls).remaining()[i],
            ),
{
    let s = sc.src;
    let mid = sc.after_marker_line(ls);
    let le = line_end(s, ls, sc.eol);
    lemma_find1(s, ls, sc.eol);
    lemma_marker_line_wf(sc, ls);
    lemma_peel(sc, ls, le, sc.open.len() as int);
    let pr = sc.peel(ls, le, sc.open.len() as int);
    let n = sc.open.len() as int;
    let r = mid.remaining();
    if pr.0 < n {
        assert forall|i: int| 0 <= i < r.len() implies cont_future(sc, #[trigger] r[i]) by {
            if i < mid.pending.len() {
                assert(mid.pending[i] == Span::mk(sc.open[n - 1 - i] as int, ls));
                assert(sc.open[n - 1 - i] < sc.pos);
            } else {
                assert(cont_future(mid, r[i]));
                if mid.pos > r[i].start {
                    let k = choose|k: int| 0 <= k < mid.open.len() && mid.open[k] == r[i].start;
                    assert(mid.open[k] == sc.open[k]);
                }
            }
        }
    } else {
        let add = sc.opens(pr.1, le, sc.cap - n);
        lemma_opens(sc, pr.1, le, sc.cap - n);
        assert(mid.open == sc.open + add);
        assert forall|i: int| 0 <= i < r.len() implies cont_future(sc, #[trigger] r[i]) by {
            assert(cont_future(mid, r[i]));
            if mid.pos > r[i].start {
                let k = choose|k: int| 0 <= k < mid.open.len() && mid.open[k] == r[i].start;
                if k >= n {
                    assert(mid.open[k] == add[k - n]);
                } else {
                    assert(mid.open[k] == sc.open[k]);
                }
            }
        }
    }
}

/// The spans a continuation scan hands out from its start come in close
/// order, innermost first among frames that close together, and any two of
/// them are disjoint or nested with the earlier one inside the later.
pub proof fn lemma_cont_order(sc: ContScan)
    requires
        sc.pos == 0,
        sc.open.len() == 0,
        sc.pending.len() == 0,
        0 <= sc.cap <= MAX_DEPTH,
        sc.src.len() <= u32::MAX,
    ensures
        cont_order_ok(sc.remaining()),
{
    lemma_cont_order_from(sc);
}

/// The iterator over line-continuation block spans of a byte slice, with
/// same-marker nesting on one line (`> >` opens two frames).
///
/// A line's depth is the number of its leading marker bytes (each
/// optionally followed by one `sep`/`tab`), capped at `max_nest`. A frame at
/// depth `d` opens at the `d`-th marker of the first line of a run of lines
/// of depth at least `d`, and closes at the start of the first line of lower
/// depth, or at the end of the source. Frames closing together are handed
/// out innermost first.
pub struct ContIter<'a> {
    src: &'a [u8],
    byte: u8,
    eol: u8,
    sep: u8,
    tab: u8,
    cap: usize,
    pos: usize,
    open: [u32; 32],
    open_len: usize,
    pending: [Span; 32],
    pending_len: usize,
    pending_idx: usize,
}

impl<'a> View for ContIter<'a> {
    type V = ContScan;

    closed spec fn view(&self) -> ContScan {
        ContScan {
            src: self.src@,
            byte: self.byte,
            eol: self.eol,
            sep: self.sep,
            tab: self.tab,
            cap: self.cap as int,
            pos: self.pos as int,
            open: self.open@.take(self.open_len as int),
            pending: if self.pending_idx <= self.pending_len {
                self.pending@.subrange(self.pending_idx as int, self.pending_len as int)
            } else {
                Seq::empty()
            },
        }
    }
}

impl<'a> ContIter<'a> {
    #[verifier::type_invariant]
    spec fn inv(self) -> bool {
        &&& self.pos <= self.src@.len()
        &&& self.src@.len() <= MAX_INPUT_LEN
        &&& self.cap <= MAX_DEPTH
        &&& self.pending_idx <= MAX_DEPTH
        &&& self.pending_len <= MAX_DEPTH
        &&& self.open_len + (if self.pending_idx <= self.pending_len {
            self.pending_len - self.pending_idx
        } else {
            0
        }) <= self.cap
    }

    /// Create a nesting-aware continuation-block iterator over `src` with
    /// marker `byte`; at most `max_nest` frames open (and at most
    /// [`MAX_DEPTH`]).
    pub fn new(src: &'a [u8], byte: u8, eol: u8, sep: u8, tab: u8, max_nest: usize) -> (it: Self)
        requires
            src@.len() <= MAX_INPUT_LEN,
        ensures
            it@.src == src@,
            it@.byte == byte,
            it@.eol == eol,
            it@.sep == sep,
            it@.tab == tab,
            it@.cap == if max_nest < MAX_DEPTH {
                max_nest as int
            } else {
                MAX_DEPTH as int
            },
            it@.pos == 0,
            it@.open == Seq::<u32>::empty(),
            it@.pending == Seq::<Span>::empty(),
            frames_ok(it@),
    {
        let cap = if max_nest < MAX_DEPTH {
            max_nest
        } else {
            MAX_DEPTH
        };
        let it = ContIter {
            src,
            byte,
            eol,
            sep,
            tab,
            cap,
            pos: 0,
            open: [0u32; 32],
            open_len: 0,
            pending: [Span::new(0, 0); 32],
            pending_len: 0,
            pending_idx: 0,
        };
        proof {
            assert(it@.open =~= Seq::<u32>::empty());
            assert(it@.pending =~= Seq::<Span>::empty());
        }
        it
    }

    /// The position just past a marker at `p`: the marker byte and one
    /// optional `sep`/`tab`.
    fn consume_marker(&self, p: usize, le: usize) -> (r: usize)
        requires
            p < le <= self@.src.len(),
        ensures
            r == self@.consume(p as int, le as int),
    {
        if p + 1 < le && (self.src[p + 1] == self.sep || self.src[p + 1] == self.tab) {
            p + 2
        } else {
            p + 1
        }
    }

    /// Close the frames `[from, open_len)` at `end`, innermost first, into
    /// the spans awaiting hand-out.
    fn close_from(&mut self, from: usize, end: u32)
        requires
            from <= old(self)@.open.len(),
            old(self).pending_len == 0,
            old(self).pending_idx == 0,
        ensures
            final(self)@ == (ContScan {
                open: old(self)@.open.take(from as int),
                pending: old(self)@.pending + close_spans(old(self)@.open, from as int, end as int),
                ..old(self)@
            }),
            final(self).pending_idx == 0,
            final(self).open_len == from,
            final(self).pos == old(self).pos,
    {
        proof {
            use_type_invariant(&*self);
        }
        let ghost old_open = self@.open;
        let n = self.open_len;
        let mut i = self.open_len;
        let mut pl: usize = 0;
        while i > from
            invariant
                from <= i <= n,
                n == self.open_len,
                n <= self.cap <= MAX_DEPTH,
                self.pending_idx == 0,
                self.pending_len == 0,
                pl == n - i,
                old_open == self.open@.take(n as int),
                self.pending@.subrange(0, pl as int) =~= close_spans(
                    old_open,
                    i as int,
                    end as int,
                ),
                self.src == old(self).src,
                self.byte == old(self).byte,
                self.eol == old(self).eol,
                self.sep == old(self).sep,
                self.tab == old(self).tab,
                self.cap == old(self).cap,
                self.pos == old(self).pos,
                self.open == old(self).open,
                self.pos <= self.src@.len() <= MAX_INPUT_LEN,
            decreases i,
        {
            i -= 1;
            let ghost before = self.pending@;
            self.pending[pl] = Span::new(self.open[i], end);
            proof {
                let cs = close_spans(old_open, i as int, end as int);
                let cs1 = close_spans(old_open, i + 1, end as int);
                assert(self.pending@ == before.update(
                    pl as int,
                    Span::mk(old_open[i as int] as int, end as int),
                ));
                assert forall|j: int| 0 <= j < pl + 1 implies self.pending@.subrange(
                    0,
                    pl + 1,
                )[j] == cs[j] by {
                    if j < pl {
                        assert(before.subrange(0, pl as int)[j] == cs1[j]);
                    }
                }
                assert(self.pending@.subrange(0, pl + 1) =~= cs);
            }
            pl += 1;
        }
        self.open_len = from;
        self.pending_len = pl;
        proof {
            assert(self@.open =~= old(self)@.open.take(from as int));
            assert(old(self)@.pending =~= Seq::<Span>::empty());
            assert(self@.pending =~= old(self)@.pending + close_spans(
                old_open,
                from as int,
                end as int,
            ));
        }
    }

    /// The next span: the first of the remaining ones, which are then the
    /// rest; `None` once none remain.
    pub fn next(&mut self) -> (r: Option<Span>)
        ensures
            match old(self)@.step() {
                Some((sp, nx)) => r == Some(sp) && final(self)@ == nx,
                None => r is None && final(self)@.step() is None && final(self)@.remaining()
                    == Seq::<Span>::empty(),
            },
            old(self)@.remaining() == (match old(self)@.step() {
                Some((sp, _)) => seq![sp] + final(self)@.remaining(),
                None => Seq::<Span>::empty(),
            }),
    {
        proof {
            use_type_invariant(&*self);
            lemma_step_measure(self@);
        }
        let ghost sc0 = self@;
        let src = self.src;
        let len = src.len();
        let byte = self.byte;
        let eol = self.eol;
        loop
            invariant
                sc0 == old(self)@,
                self.src == src,
                len == src@.len() <= MAX_INPUT_LEN,
                byte == self.byte,
                eol == self.eol,
                self.sep == old(self).sep,
                self.tab == old(self).tab,
                self.cap == old(self).cap,
                self.src == old(self).src,
                self.byte == old(self).byte,
                self.eol == old(self).eol,
                self@.step() == sc0.step(),
                sc0.wf(),
                sc0.src.len() <= u32::MAX,
            decreases len - self.pos, self.open_len,
        {
            proof {
                use_type_invariant(&*self);
            }
            if self.pending_idx < self.pending_len {
                let ghost before = self@;
                let s = self.pending[self.pending_idx];
                self.pending_idx += 1;
                proof {
                    assert(before.pending[0] == s);
                    assert(self@.pending =~= before.pending.drop_first());
                    assert(self@ == (ContScan { pending: before.pending.drop_first(), ..before }));
                    lemma_step_measure(sc0);
                }
                return Some(s);
            }
            let ghost before = self@;
            self.pending_len = 0;
            self.pending_idx = 0;
            proof {
                assert(self@.pending =~= before.pending);
                assert(self@ == before);
            }
            if self.open_len > 0 && self.pos >= len {
                let ghost b2 = self@;
                self.close_from(0, len as u32);
                proof {
                    assert(b2.open.take(0) =~= Seq::<u32>::empty());
                    assert(b2.pending + close_spans(b2.open, 0, len as int) =~= close_spans(
                        b2.open,
                        0,
                        len as int,
                    ));
                    assert(self@ == b2.close_all(len as int, b2.pos));
                }
                continue;
            }
            proof {
                lemma_find1(src@, self.pos as int, byte);
            }
            let hit = find_byte(src, self.pos, byte);
            let ls = if self.open_len > 0 {
                match hit {
                    Some(q) if q == self.pos => q,
                    _ => {
                        let np = match hit {
                            Some(q) => q,
                            None => len,
                        };
                        let ghost b2 = self@;
                        self.close_from(0, self.pos as u32);
                        proof {
                            use_type_invariant(&*self);
                        }
                        self.pos = np;
                        proof {
                            assert(b2.open.take(0) =~= Seq::<u32>::empty());
                            assert(b2.pending + close_spans(b2.open, 0, b2.pos) =~= close_spans(
                                b2.open,
                                0,
                                b2.pos,
                            ));
                            assert(self@ == b2.close_all(b2.pos, np as int));
                        }
                        continue;
                    },
                }
            } else {
                let q = match hit {
                    Some(q) => q,
                    None => {
                        return None;
                    },
                };
                if q > 0 && src[q - 1] != eol {
                    self.pos = q + 1;
                    continue;
                }
                q
            };
            self.marker_line(ls);
        }
    }

    /// Process the marker line that starts at `ls`: peel the open frames,
    /// each continuing while the line repeats its marker; a missing marker
    /// closes that frame and every deeper one at `ls`, and the line then has
    /// no marker where the walk stopped, so nothing opens. When every frame
    /// continues, further markers open new frames up to the cap.
    fn marker_line(&mut self, ls: usize)
        requires
            old(self).pending_len == 0,
            old(self).pending_idx == 0,
            old(self).pos <= ls < old(self)@.src.len(),
        ensures
            final(self)@ == old(self)@.after_marker_line(ls as int),
            final(self).pos > old(self).pos,
    {
        proof {
            use_type_invariant(&*self);
        }
        let ghost sc = self@;
        let src = self.src;
        let len = src.len();
        let byte = self.byte;
        let le = find_line_end(src, ls, self.eol);
        let n = self.open_len;
        let mut cur = ls;
        let mut fi: usize = 0;
        let mut broke = false;
        while fi < n
            invariant_except_break
                !broke,
            invariant
                fi <= n,
                n == self.open_len,
                self@ == sc,
                self.src == src,
                byte == sc.byte,
                ls <= cur <= le <= len,
                len == src@.len(),
                sc.peel(ls as int, le as int, n as int) == (
                    fi + sc.peel(cur as int, le as int, n - fi).0,
                    sc.peel(cur as int, le as int, n - fi).1,
                ),
            ensures
                broke ==> fi < n && !sc.is_marker(cur as int, le as int),
                !broke ==> fi == n,
                fi <= n,
                self@ == sc,
                ls <= cur <= le <= len,
                sc.peel(ls as int, le as int, n as int) == (
                    fi + sc.peel(cur as int, le as int, n - fi).0,
                    sc.peel(cur as int, le as int, n - fi).1,
                ),
            decreases n - fi,
        {
            if cur < le && src[cur] == byte {
                cur = self.consume_marker(cur, le);
                fi += 1;
            } else {
                broke = true;
                break;
            }
        }
        proof {
            assert(sc.peel(ls as int, le as int, n as int) == (fi as int, cur as int));
        }
        let ghost c0 = cur as int;
        if broke {
            self.close_from(fi, ls as u32);
            proof {
                use_type_invariant(&*self);
                assert(sc.pending =~= Seq::<Span>::empty());
                assert(sc.pending + close_spans(sc.open, fi as int, ls as int) =~= close_spans(
                    sc.open,
                    fi as int,
                    ls as int,
                ));
            }
        } else {
            let ghost room0 = sc.cap - n;
            while cur < le && src[cur] == byte && self.open_len < self.cap
                invariant
                    self.src == src,
                    byte == self.byte,
                    self.pending_len == 0,
                    self.pending_idx == 0,
                    self.open_len <= self.cap <= MAX_DEPTH,
                    self.pos == sc.pos,
                    self@.src == sc.src,
                    self@.cap == sc.cap,
                    self.byte == sc.byte,
                    self.eol == sc.eol,
                    self.sep == sc.sep,
                    self.tab == sc.tab,
                    self.pos <= len,
                    ls <= cur <= le <= len,
                    len == src@.len() <= MAX_INPUT_LEN,
                    self@.pending == sc.pending,
                    sc.open + sc.opens(c0, le as int, room0) == self@.open + sc.opens(
                        cur as int,
                        le as int,
                        sc.cap - self.open_len,
                    ),
                decreases le - cur,
            {
                let ghost before = self@.open;
                let ghost rest = sc.opens(sc.consume(cur as int, le as int), le as int, sc.cap - self.open_len - 1);
                self.open[self.open_len] = cur as u32;
                self.open_len += 1;
                proof {
                    assert(self@.open =~= before.push(cur as u32));
                    assert(before + (seq![cur as u32] + rest) =~= before.push(cur as u32) + rest);
                }
                cur = self.consume_marker(cur, le);
            }
            proof {
                assert(self@.open + sc.opens(cur as int, le as int, sc.cap - self.open_len)
                    =~= self@.open);
            }
        }
        let np = if le < len {
            le + 1
        } else {
            len
        };
        let ghost mid = self@;
        self.pos = np;
        proof {
            let pr = sc.peel(ls as int, le as int, n as int);
            assert(le == line_end(sc.src, ls as int, sc.eol));
            assert(pr == (fi as int, c0));
            assert(self@ == ContScan { pos: np as int, ..mid });
            if broke {
                assert(mid.open == sc.open.take(pr.0));
                assert(mid.pending == close_spans(sc.open, pr.0, ls as int));
            } else {
                assert(mid.open == sc.open + sc.opens(pr.1, le as int, sc.cap - sc.open.len()));
                assert(mid.pending == Seq::<Span>::empty());
            }
        }
    }
}

} // verus!
