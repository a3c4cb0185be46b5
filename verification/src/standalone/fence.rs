//! [`FenceIter`]: fenced block standalone iterator.
use vstd::prelude::*;
use crate::search::{find1, line_end, lemma_find1, find_byte};
use crate::span::{Span, MAX_INPUT_LEN};
use super::common::{
    run_end, lemma_run_end, scan_run_sat, sat8, after_line, has_byte_in, blank_in, contains_byte,
    all_sep_tab, find_line_end,
};

verus! {

/// The state of a fence scan.
pub struct FenceScan {
    pub src: Seq<u8>,
    pub byte: u8,
    pub min: u8,
    pub eol: u8,
    pub sep: u8,
    pub tab: u8,
    pub pos: int,
}

/// The closing search of a fence opened with `open_count` `byte`s, from
/// `search`: the first line that starts with at least `open_count` `byte`s
/// followed only by `sep`/`tab` closes the fence, which then ends after that
/// line's `eol` (or at the end of input). With no closing line the fence
/// runs to the end of input.
pub open spec fn fence_close(
    s: Seq<u8>,
    byte: u8,
    open_count: int,
    eol: u8,
    sep: u8,
    tab: u8,
    search: int,
) -> int
    decreases s.len() - search,
{
    if search < 0 {
        s.len() as int
    } else {
        match find1(s, search, byte) {
            None => s.len() as int,
            Some(q) => {
                proof {
                    lemma_find1(s, search, byte);
                    lemma_run_end(s, q, byte);
                }
                if q > 0 && s[q - 1] != eol {
                    fence_close(s, byte, open_count, eol, sep, tab, q + 1)
                } else {
                    let j = run_end(s, q, byte);
                    let cle = line_end(s, j, eol);
                    proof {
                        lemma_find1(s, j, eol);
                    }
                    if sat8(j - q) >= open_count && blank_in(s, j, cle, sep, tab) {
                        after_line(s.len() as int, cle)
                    } else {
                        fence_close(s, byte, open_count, eol, sep, tab, after_line(s.len() as int, cle))
                    }
                }
            },
        }
    }
}

proof fn lemma_fence_close(s: Seq<u8>, byte: u8, oc: int, eol: u8, sep: u8, tab: u8, search: int)
    requires
        0 <= search <= s.len(),
    ensures
        search <= fence_close(s, byte, oc, eol, sep, tab, search) <= s.len(),
        fence_close(s, byte, oc, eol, sep, tab, search) == s.len() || s[fence_close(
            s,
            byte,
            oc,
            eol,
            sep,
            tab,
            search,
        ) - 1] == eol,
    decreases s.len() - search,
{
    lemma_find1(s, search, byte);
    match find1(s, search, byte) {
        None => {},
        Some(q) => {
            lemma_run_end(s, q, byte);
            if q > 0 && s[q - 1] != eol {
                lemma_fence_close(s, byte, oc, eol, sep, tab, q + 1);
            } else {
                let j = run_end(s, q, byte);
                let cle = line_end(s, j, eol);
                lemma_find1(s, j, eol);
                if !(sat8(j - q) >= oc && blank_in(s, j, cle, sep, tab)) {
                    lemma_fence_close(s, byte, oc, eol, sep, tab, after_line(s.len() as int, cle));
                }
            }
        },
    }
}

impl FenceScan {
    /// The same scan resumed at `pos`.
    pub open spec fn at(self, pos: int) -> FenceScan {
        FenceScan { pos, ..self }
    }

    /// The next fenced block at or after `pos`, with the position after it.
    ///
    /// A `byte` that does not begin its line is skipped. At a line start the
    /// run of `byte`s is counted (saturating at 255); the line opens a fence
    /// when the count is at least `min` and no further `byte` follows on the
    /// line, and otherwise the scan resumes on the next line. An open fence
    /// runs to [`fence_close`] from the next line.
    pub open spec fn step(self) -> Option<(Span, int)>
        decreases self.src.len() - self.pos,
    {
        let s = self.src;
        let len = s.len() as int;
        if self.pos < 0 {
            None
        } else {
            match find1(s, self.pos, self.byte) {
                None => None,
                Some(p) => {
                    proof {
                        lemma_find1(s, self.pos, self.byte);
                        lemma_run_end(s, p, self.byte);
                    }
                    if p > 0 && s[p - 1] != self.eol {
                        self.at(p + 1).step()
                    } else {
                        let i = run_end(s, p, self.byte);
                        let le = line_end(s, i, self.eol);
                        proof {
                            lemma_find1(s, i, self.eol);
                        }
                        if sat8(i - p) < self.min || has_byte_in(s, i, le, self.byte) {
                            self.at(after_line(len, le)).step()
                        } else {
                            let fe = fence_close(
                                s,
                                self.byte,
                                sat8(i - p),
                                self.eol,
                                self.sep,
                                self.tab,
                                after_line(len, le),
                            );
                            Some((Span::mk(p, fe), fe))
                        }
                    }
                },
            }
        }
    }

    /// Every fenced block at or after `pos`, in order.
    pub open spec fn remaining(self) -> Seq<Span>
        decreases self.src.len() - self.pos,
    {
        match self.step() {
            None => Seq::empty(),
            Some((sp, np)) => if np <= self.pos || np > self.src.len() {
                Seq::empty()
            } else {
                seq![sp] + self.at(np).remaining()
            },
        }
    }
}

/// What a fenced block is: it starts at a line start with a run of at least
/// `min` `byte`s, its opening line holds no further `byte`, and it ends
/// after an `eol` or at the end of input.
pub open spec fn fence_match(s: Seq<u8>, byte: u8, min: u8, eol: u8, sp: Span) -> bool {
    let a = sp.start as int;
    let e = sp.end as int;
    let i = run_end(s, a, byte);
    &&& a < e <= s.len()
    &&& (a == 0 || s[a - 1] == eol)
    &&& s[a] == byte
    &&& sat8(i - a) >= min
    &&& !has_byte_in(s, i, line_end(s, i, eol), byte)
    &&& (e == s.len() || s[e - 1] == eol)
}

/// A step of the fence scan moves forward and yields a [`fence_match`]
/// ending where the scan resumes.
pub proof fn lemma_fence_step(sc: FenceScan)
    requires
        0 <= sc.pos,
        sc.src.len() <= u32::MAX,
    ensures
        sc.step() matches Some((sp, np)) ==> {
            &&& sc.pos <= sp.start
            &&& sp.end == np
            &&& sc.pos < np <= sc.src.len()
            &&& fence_match(sc.src, sc.byte, sc.min, sc.eol, sp)
        },
    decreases sc.src.len() - sc.pos,
{
    let s = sc.src;
    let len = s.len() as int;
    lemma_find1(s, sc.pos, sc.byte);
    match find1(s, sc.pos, sc.byte) {
        None => {},
        Some(p) => {
            lemma_run_end(s, p, sc.byte);
            if p > 0 && s[p - 1] != sc.eol {
                lemma_fence_step(sc.at(p + 1));
            } else {
                let i = run_end(s, p, sc.byte);
                let le = line_end(s, i, sc.eol);
                lemma_find1(s, i, sc.eol);
                if sat8(i - p) < sc.min || has_byte_in(s, i, le, sc.byte) {
                    lemma_fence_step(sc.at(after_line(len, le)));
                } else {
                    lemma_fence_close(
                        s,
                        sc.byte,
                        sat8(i - p),
                        sc.eol,
                        sc.sep,
                        sc.tab,
                        after_line(len, le),
                    );
                }
            }
        },
    }
}

/// Every remaining fenced block is a [`fence_match`] at or after the scan
/// position, and the blocks come in source order without overlap.
pub proof fn lemma_fence_remaining(sc: FenceScan)
    requires
        0 <= sc.pos,
        sc.src.len() <= u32::MAX,
    ensures
        forall|i: int|
            0 <= i < sc.remaining().len() ==> fence_match(
                sc.src,
                sc.byte,
                sc.min,
                sc.eol,
                #[trigger] sc.remaining()[i],
            ) && sc.pos <= sc.remaining()[i].start,
        forall|i: int|
            0 <= i < sc.remaining().len() - 1 ==> #[trigger] sc.remaining()[i].end
                <= sc.remaining()[i + 1].start,
    decreases sc.src.len() - sc.pos,
{
    lemma_fence_step(sc);
    match sc.step() {
        None => {},
        Some((sp, np)) => {
            let rest = sc.at(np);
            lemma_fence_remaining(rest);
            let r = sc.remaining();
            assert(r == seq![sp] + rest.remaining());
            assert forall|i: int| 0 <= i < r.len() implies fence_match(
                sc.src,
                sc.byte,
                sc.min,
                sc.eol,
                #[trigger] r[i],
            ) && sc.pos <= r[i].start by {
                if i > 0 {
                    assert(r[i] == rest.remaining()[i - 1]);
                }
            }
            assert forall|i: int| 0 <= i < r.len() - 1 implies #[trigger] r[i].end <= r[i
                + 1].start by {
                assert(r[i + 1] == rest.remaining()[i]);
                if i > 0 {
                    assert(r[i] == rest.remaining()[i - 1]);
                }
            }
        },
    }
}

/// The line starting at `ls` closes a fence opened with `c` `byte`s: it
/// begins with at least `c` `byte`s, followed only by `sep`/`tab` to its end.
pub open spec fn fence_closes(s: Seq<u8>, byte: u8, c: int, eol: u8, sep: u8, tab: u8, ls: int) -> bool {
    let j = run_end(s, ls, byte);
    &&& 0 <= ls < s.len()
    &&& (ls == 0 || s[ls - 1] == eol)
    &&& j - ls >= c
    &&& blank_in(s, j, line_end(s, j, eol), sep, tab)
}

/// Where a block closed by the line at `ls` ends: after that line's `eol`,
/// or at the end of input.
pub open spec fn closing_line_end(s: Seq<u8>, byte: u8, eol: u8, ls: int) -> int {
    after_line(s.len() as int, line_end(s, run_end(s, ls, byte), eol))
}

/// A block whose body starts at `body` ends at `e` exactly when `e` is the
/// end of the first line from `body` on that closes a fence of `c` `byte`s,
/// or, with no such line, the end of input.
pub open spec fn fence_ends_at(
    s: Seq<u8>,
    byte: u8,
    c: int,
    eol: u8,
    sep: u8,
    tab: u8,
    body: int,
    e: int,
) -> bool {
    ||| (e == s.len() && forall|ls: int|
        body <= ls < s.len() ==> !#[trigger] fence_closes(s, byte, c, eol, sep, tab, ls))
    ||| exists|ls: int|
        body <= ls < e && #[trigger] fence_closes(s, byte, c, eol, sep, tab, ls) && e
            == closing_line_end(s, byte, eol, ls) && forall|l2: int|
            body <= l2 < ls ==> !#[trigger] fence_closes(s, byte, c, eol, sep, tab, l2)
}

/// The closing search finds the first closing line from `search` on.
proof fn lemma_fence_close_first(
    s: Seq<u8>,
    byte: u8,
    c: int,
    eol: u8,
    sep: u8,
    tab: u8,
    search: int,
)
    requires
        0 <= search <= s.len(),
        1 <= c <= 255,
        byte != eol,
    ensures
        fence_ends_at(s, byte, c, eol, sep, tab, search, fence_close(s, byte, c, eol, sep, tab, search)),
    decreases s.len() - search,
{
    let len = s.len() as int;
    lemma_find1(s, search, byte);
    match find1(s, search, byte) {
        None => {
            assert forall|ls: int| search <= ls < len implies !#[trigger] fence_closes(
                s,
                byte,
                c,
                eol,
                sep,
                tab,
                ls,
            ) by {
                lemma_run_end(s, ls, byte);
            }
        },
        Some(q) => {
            lemma_run_end(s, q, byte);
            assert forall|ls: int| search <= ls < q implies !#[trigger] fence_closes(
                s,
                byte,
                c,
                eol,
                sep,
                tab,
                ls,
            ) by {
                lemma_run_end(s, ls, byte);
            }
            if q > 0 && s[q - 1] != eol {
                lemma_fence_close_first(s, byte, c, eol, sep, tab, q + 1);
                let r = fence_close(s, byte, c, eol, sep, tab, q + 1);
                assert(!fence_closes(s, byte, c, eol, sep, tab, q));
                if r == len && forall|ls: int|
                    q + 1 <= ls < len ==> !#[trigger] fence_closes(s, byte, c, eol, sep, tab, ls) {
                    assert forall|ls: int| search <= ls < len implies !#[trigger] fence_closes(
                        s,
                        byte,
                        c,
                        eol,
                        sep,
                        tab,
                        ls,
                    ) by {
                        if ls == q {
                        }
                    }
                } else {
                    let w = choose|ls: int|
                        q + 1 <= ls < r && #[trigger] fence_closes(s, byte, c, eol, sep, tab, ls)
                            && r == closing_line_end(s, byte, eol, ls) && forall|l2: int|
                            q + 1 <= l2 < ls ==> !#[trigger] fence_closes(s, byte, c, eol, sep, tab, l2);
                    assert forall|l2: int| search <= l2 < w implies !#[trigger] fence_closes(
                        s,
                        byte,
                        c,
                        eol,
                        sep,
                        tab,
                        l2,
                    ) by {
                        if l2 == q {
                        }
                    }
                }
            } else {
                let j = run_end(s, q, byte);
                let cle = line_end(s, j, eol);
                lemma_find1(s, j, eol);
                let nxt = after_line(len, cle);
                if sat8(j - q) >= c && blank_in(s, j, cle, sep, tab) {
                    assert(fence_closes(s, byte, c, eol, sep, tab, q));
                } else {
                    assert(!fence_closes(s, byte, c, eol, sep, tab, q));
                    assert forall|ls: int| q < ls < nxt implies !#[trigger] fence_closes(
                        s,
                        byte,
                        c,
                        eol,
                        sep,
                        tab,
                        ls,
                    ) by {
                        if ls - 1 < j {
                            assert(s[ls - 1] == byte);
                        }
                    }
                    lemma_fence_close_first(s, byte, c, eol, sep, tab, nxt);
                    let r = fence_close(s, byte, c, eol, sep, tab, nxt);
                    if r == len && forall|ls: int|
                        nxt <= ls < len ==> !#[trigger] fence_closes(s, byte, c, eol, sep, tab, ls) {
                        assert forall|ls: int| search <= ls < len implies !#[trigger] fence_closes(
                            s,
                            byte,
                            c,
                            eol,
                            sep,
                            tab,
                            ls,
                        ) by {
                            if ls == q {
                            }
                        }
                    } else {
                        let w = choose|ls: int|
                            nxt <= ls < r && #[trigger] fence_closes(s, byte, c, eol, sep, tab, ls)
                                && r == closing_line_end(s, byte, eol, ls) && forall|l2: int|
                                nxt <= l2 < ls ==> !#[trigger] fence_closes(s, byte, c, eol, sep, tab, l2);
                        assert forall|l2: int| search <= l2 < w implies !#[trigger] fence_closes(
                            s,
                            byte,
                            c,
                            eol,
                            sep,
                            tab,
                            l2,
                        ) by {
                            if l2 == q {
                            }
                        }
                    }
                }
            }
        },
    }
}

/// A yielded fenced block ends at the first line after its opening line
/// that begins with at least as many fence bytes as the opening run (counted
/// up to 255), followed only by `sep`/`tab` (after that line's `eol`), or at
/// the end of input when no line closes it.
pub proof fn lemma_fence_closes_first(sc: FenceScan)
    requires
        0 <= sc.pos,
        sc.src.len() <= u32::MAX,
        sc.byte != sc.eol,
    ensures
        sc.step() matches Some((sp, np)) ==> fence_ends_at(
            sc.src,
            sc.byte,
            sat8(run_end(sc.src, sp.start as int, sc.byte) - sp.start),
            sc.eol,
            sc.sep,
            sc.tab,
            after_line(
                sc.src.len() as int,
                line_end(sc.src, run_end(sc.src, sp.start as int, sc.byte), sc.eol),
            ),
            sp.end as int,
        ),
    decreases sc.src.len() - sc.pos,
{
    let s = sc.src;
    let len = s.len() as int;
    lemma_fence_step(sc);
    lemma_find1(s, sc.pos, sc.byte);
    match find1(s, sc.pos, sc.byte) {
        None => {},
        Some(p) => {
            lemma_run_end(s, p, sc.byte);
            if p > 0 && s[p - 1] != sc.eol {
                lemma_fence_closes_first(sc.at(p + 1));
            } else {
                let i = run_end(s, p, sc.byte);
                let le = line_end(s, i, sc.eol);
                lemma_find1(s, i, sc.eol);
                if sat8(i - p) < sc.min || has_byte_in(s, i, le, sc.byte) {
                    lemma_fence_closes_first(sc.at(after_line(len, le)));
                } else {
                    lemma_fence_close(s, sc.byte, sat8(i - p), sc.eol, sc.sep, sc.tab, after_line(len, le));
                    lemma_fence_close_first(s, sc.byte, sat8(i - p), sc.eol, sc.sep, sc.tab, after_line(len, le));
                }
            }
        },
    }
}

/// With no `byte` between the scan position and `p`, scanning from the
/// position and scanning from `p` yield the same.
pub proof fn lemma_fence_skip_to(sc: FenceScan, p: int)
    requires
        0 <= sc.pos <= p,
        forall|i: int| sc.pos <= i < p ==> #[trigger] sc.src[i] != sc.byte,
    ensures
        sc.step() == sc.at(p).step(),
    decreases p - sc.pos,
{
    if sc.pos < p {
        if sc.pos < sc.src.len() {
            assert(sc.src[sc.pos] != sc.byte);
        }
        lemma_fence_skip_to(sc.at(sc.pos + 1), p);
        assert(find1(sc.src, sc.pos, sc.byte) == find1(sc.src, sc.pos + 1, sc.byte));
    }
}

/// Completeness of the fence scan at an opening line: when the line at the
/// scan position begins with a run of the fence byte counted (up to 255) to
/// at least `min`, and no further fence byte follows on that line, the scan
/// yields a block that starts there (and ends as [`lemma_fence_closes_first`]
/// says).
pub proof fn lemma_fence_opens(sc: FenceScan)
    requires
        0 <= sc.pos < sc.src.len() <= u32::MAX,
        sc.pos == 0 || sc.src[sc.pos - 1] == sc.eol,
        sc.src[sc.pos] == sc.byte,
        sat8(run_end(sc.src, sc.pos, sc.byte) - sc.pos) >= sc.min,
        !has_byte_in(
            sc.src,
            run_end(sc.src, sc.pos, sc.byte),
            line_end(sc.src, run_end(sc.src, sc.pos, sc.byte), sc.eol),
            sc.byte,
        ),
    ensures
        sc.step() matches Some((sp, np)) && sp.start == sc.pos,
{
    let s = sc.src;
    lemma_find1(s, sc.pos, sc.byte);
    lemma_run_end(s, sc.pos, sc.byte);
    assert(find1(s, sc.pos, sc.byte) == Some(sc.pos));
}

/// The iterator over fenced block spans of a byte slice.
///
/// A fence opens on a line that starts with at least `min` consecutive
/// `byte`s and holds no further `byte` after that run. It closes on the next
/// line that starts with at least as many `byte`s, followed only by `sep` or
/// `tab`; without such a line it runs to the end of input. The yielded
/// [`Span`] covers the whole block, from the opening fence byte through the
/// closing line and its `eol`.
pub struct FenceIter<'a> {
    src: &'a [u8],
    byte: u8,
    min: u8,
    eol: u8,
    sep: u8,
    tab: u8,
    pos: usize,
}

impl<'a> View for FenceIter<'a> {
    type V = FenceScan;

    closed spec fn view(&self) -> FenceScan {
        FenceScan {
            src: self.src@,
            byte: self.byte,
            min: self.min,
            eol: self.eol,
            sep: self.sep,
            tab: self.tab,
            pos: self.pos as int,
        }
    }
}

impl<'a> FenceIter<'a> {
    #[verifier::type_invariant]
    spec fn inv(self) -> bool {
        &&& self.pos <= self.src@.len()
        &&& self.src@.len() <= MAX_INPUT_LEN
    }

    /// Create an iterator over fenced block spans of `src` (fence `byte`,
    /// at least `min` of them, `eol` line terminator, `sep`/`tab` allowed
    /// after a closing run).
    pub fn new(src: &'a [u8], byte: u8, min: u8, eol: u8, sep: u8, tab: u8) -> (it: Self)
        requires
            src@.len() <= MAX_INPUT_LEN,
        ensures
            it@ == (FenceScan { src: src@, byte, min, eol, sep, tab, pos: 0 }),
    {
        FenceIter { src, byte, min, eol, sep, tab, pos: 0 }
    }

    /// The next fenced block: the first of the remaining blocks, which are
    /// then the rest; `None` once none remain.
    pub fn next(&mut self) -> (r: Option<Span>)
        ensures
            final(self)@ == old(self)@.at(final(self)@.pos),
            match old(self)@.step() {
                Some((sp, np)) => r == Some(sp) && final(self)@.pos == np,
                None => r is None && final(self)@.remaining() == Seq::<Span>::empty(),
            },
            old(self)@.remaining() == (match r {
                Some(sp) => seq![sp] + final(self)@.remaining(),
                None => Seq::<Span>::empty(),
            }),
            r matches Some(sp) ==> fence_match(
                old(self)@.src,
                old(self)@.byte,
                old(self)@.min,
                old(self)@.eol,
                sp,
            ),
    {
        proof {
            use_type_invariant(&*self);
            lemma_fence_step(self@);
        }
        let ghost sc0 = self@;
        let src = self.src;
        let len = src.len();
        let byte = self.byte;
        let min = self.min;
        let eol = self.eol;
        let sep = self.sep;
        let tab = self.tab;
        loop
            invariant
                self@ == sc0.at(self@.pos),
                sc0 == old(self)@,
                sc0.src == src@,
                len == src@.len() <= MAX_INPUT_LEN,
                byte == sc0.byte,
                min == sc0.min,
                eol == sc0.eol,
                sep == sc0.sep,
                tab == sc0.tab,
                0 <= self@.pos <= len,
                self@.step() == sc0.step(),
            decreases len - self@.pos,
        {
            proof {
                use_type_invariant(&*self);
                lemma_find1(src@, self@.pos, byte);
            }
            let p = match find_byte(src, self.pos, byte) {
                Some(p) => p,
                None => {
                    return None;
                },
            };
            if p > 0 && src[p - 1] != eol {
                self.pos = p + 1;
                continue;
            }
            let (i, c) = scan_run_sat(src, p, byte);
            proof {
                lemma_run_end(src@, p as int, byte);
            }
            let le = find_line_end(src, i, eol);
            if c < min || contains_byte(src, i, le, byte) {
                self.pos = if le < len {
                    le + 1
                } else {
                    len
                };
                continue;
            }
            let fence_start = p;
            let fence_count = c;
            let mut search = if le < len {
                le + 1
            } else {
                len
            };
            let ghost search0 = search as int;
            let mut fence_end: usize = len;
            loop
                invariant_except_break
                    search0 <= search <= len,
                    fence_close(src@, byte, fence_count as int, eol, sep, tab, search as int)
                        == fence_close(src@, byte, fence_count as int, eol, sep, tab, search0),
                invariant
                    len == src@.len() <= MAX_INPUT_LEN,
                ensures
                    fence_end == fence_close(
                        src@,
                        byte,
                        fence_count as int,
                        eol,
                        sep,
                        tab,
                        search0,
                    ),
                decreases len - search,
            {
                proof {
                    lemma_find1(src@, search as int, byte);
                }
                let q = match find_byte(src, search, byte) {
                    Some(q) => q,
                    None => {
                        fence_end = len;
                        break;
                    },
                };
                if q > 0 && src[q - 1] != eol {
                    search = q + 1;
                    continue;
                }
                let (j, cc) = scan_run_sat(src, q, byte);
                proof {
                    lemma_run_end(src@, q as int, byte);
                }
                let cle = find_line_end(src, j, eol);
                if cc >= fence_count && all_sep_tab(src, j, cle, sep, tab) {
                    fence_end = if cle < len {
                        cle + 1
                    } else {
                        len
                    };
                    break;
                }
                search = if cle < len {
                    cle + 1
                } else {
                    len
                };
            }
            proof {
                lemma_fence_step(sc0);
                lemma_fence_close(src@, byte, fence_count as int, eol, sep, tab, search0);
            }
            self.pos = fence_end;
            return Some(Span::new(fence_start as u32, fence_end as u32));
        }
    }
}

} // verus!
