//! [`KvIter`]: key-value pair standalone iterator.
use vstd::prelude::*;
use crate::search::{find1, find2, lemma_find1, lemma_find2, find_byte, find_byte2};
use crate::span::{Span, MAX_INPUT_LEN};
use super::common::{run_end, lemma_run_end};

verus! {

/// The state of a key-value scan.
pub struct KvScan {
    pub src: Seq<u8>,
    pub eq: u8,
    pub end_byte: u8,
    pub allow_sep: bool,
    pub eol: u8,
    pub sep: u8,
    pub tab: u8,
    pub pos: int,
}

/// Walk back from `k` over `sep` bytes, not below `bound`.
pub open spec fn trim_back(s: Seq<u8>, k: int, bound: int, sep: u8) -> int
    decreases k - bound,
{
    if k > bound && 0 < k <= s.len() && s[k - 1] == sep {
        trim_back(s, k - 1, bound, sep)
    } else {
        k
    }
}

/// Walk back from `k` to the start of the word ending there: over bytes
/// other than `sep`, `tab` and `eol`, not below `bound`.
pub open spec fn word_start(s: Seq<u8>, k: int, bound: int, sep: u8, tab: u8, eol: u8) -> int
    decreases k - bound,
{
    if k > bound && 0 < k <= s.len() && s[k - 1] != sep && s[k - 1] != tab && s[k - 1] != eol {
        word_start(s, k - 1, bound, sep, tab, eol)
    } else {
        k
    }
}

proof fn lemma_trim_back(s: Seq<u8>, k: int, bound: int, sep: u8)
    requires
        0 <= bound <= k <= s.len(),
    ensures
        bound <= trim_back(s, k, bound, sep) <= k,
        forall|i: int| trim_back(s, k, bound, sep) <= i < k ==> s[i] == sep,
        trim_back(s, k, bound, sep) == bound || s[trim_back(s, k, bound, sep) - 1] != sep,
    decreases k - bound,
{
    if k > bound && s[k - 1] == sep {
        lemma_trim_back(s, k - 1, bound, sep);
    }
}

proof fn lemma_word_start(s: Seq<u8>, k: int, bound: int, sep: u8, tab: u8, eol: u8)
    requires
        0 <= bound <= k <= s.len(),
    ensures
        bound <= word_start(s, k, bound, sep, tab, eol) <= k,
        word_start(s, k, bound, sep, tab, eol) == bound || {
            let b = s[word_start(s, k, bound, sep, tab, eol) - 1];
            b == sep || b == tab || b == eol
        },
        forall|i: int|
            word_start(s, k, bound, sep, tab, eol) <= i < k ==> #[trigger] s[i] != sep && s[i]
                != tab && s[i] != eol,
    decreases k - bound,
{
    if k > bound && s[k - 1] != sep && s[k - 1] != tab && s[k - 1] != eol {
        lemma_word_start(s, k - 1, bound, sep, tab, eol);
    }
}

impl KvScan {
    /// The same scan resumed at `pos`.
    pub open spec fn at(self, pos: int) -> KvScan {
        KvScan { pos, ..self }
    }

    /// The next pair at or after `pos` — key span and value span — with the
    /// position after it.
    ///
    /// Every `eq` byte yields a pair. The key is the word that ends at `eq`
    /// (after trimming `sep`s before `eq` when `allow_sep` holds), never
    /// reaching back before `pos`; the value starts after `eq` (after
    /// skipping `sep`s when `allow_sep` holds) and ends at the first
    /// `end_byte` or `eol`, or at the end of input. The scan resumes after
    /// that terminator.
    pub open spec fn step(self) -> Option<((Span, Span), int)> {
        let s = self.src;
        let len = s.len() as int;
        if self.pos < 0 {
            None
        } else {
            match find1(s, self.pos, self.eq) {
                None => None,
                Some(e) => {
                    let key_end = if self.allow_sep {
                        trim_back(s, e, self.pos, self.sep)
                    } else {
                        e
                    };
                    let ks = word_start(s, key_end, self.pos, self.sep, self.tab, self.eol);
                    let vs = if self.allow_sep {
                        run_end(s, e + 1, self.sep)
                    } else {
                        e + 1
                    };
                    match find2(s, vs, self.end_byte, self.eol) {
                        Some(ve) => Some(((Span::mk(ks, key_end), Span::mk(vs, ve)), ve + 1)),
                        None => Some(((Span::mk(ks, key_end), Span::mk(vs, len)), len)),
                    }
                },
            }
        }
    }

    /// Every pair at or after `pos`, in order.
    pub open spec fn remaining(self) -> Seq<(Span, Span)>
        decreases self.src.len() - self.pos,
    {
        match self.step() {
            None => Seq::empty(),
            Some((it, np)) => if np <= self.pos || np > self.src.len() {
                Seq::empty()
            } else {
                seq![it] + self.at(np).remaining()
            },
        }
    }
}

/// What a pair is: an `eq` byte stands between the key and the value; the
/// key holds no `sep`, `tab`, `eol` or `eq`, and only `sep`s (when `allow_sep`)
/// separate it from `eq`; the value starts after `eq` (and after `sep`s when
/// `allow_sep`), holds no `end_byte` and no `eol`, and ends at one of them or
/// at the end of input.
pub open spec fn kv_match(sc: KvScan, item: (Span, Span)) -> bool {
    kv_match_in(sc.src, sc.eq, sc.end_byte, sc.allow_sep, sc.eol, sc.sep, sc.tab, item)
}

/// [`kv_match`] over the source and rule alone.
pub open spec fn kv_match_in(
    s: Seq<u8>,
    eq: u8,
    end_byte: u8,
    allow_sep: bool,
    eol: u8,
    sep: u8,
    tab: u8,
    item: (Span, Span),
) -> bool {
    let (k, v) = item;
    let (ka, ke, va, ve) = (k.start as int, k.end as int, v.start as int, v.end as int);
    exists|e: int|
        #![trigger s[e]]
        ka <= ke <= e < va <= ve <= s.len() && s[e] == eq && (forall|i: int|
            ka <= i < ke ==> #[trigger] s[i] != sep && s[i] != tab && s[i] != eol && s[i] != eq)
            && (forall|i: int|
            ke <= i < e ==> allow_sep && #[trigger] s[i] == sep) && (forall|i: int|
            e < i < va ==> allow_sep && #[trigger] s[i] == sep) && (forall|i: int|
            va <= i < ve ==> #[trigger] s[i] != end_byte && s[i] != eol) && (ve == s.len() || s[ve]
            == end_byte || s[ve] == eol)
}

/// The key of a pair is the whole word before `eq`: it starts at the scan
/// position or just after a `sep`, `tab` or `eol`; with `allow_sep`, every
/// `sep` before `eq` is trimmed from it (its end is the scan position or
/// follows a byte other than `sep`), and every `sep` after `eq` is skipped
/// before the value.
pub open spec fn kv_maximal(sc: KvScan, item: (Span, Span)) -> bool {
    let s = sc.src;
    let (ka, ke, va) = (item.0.start as int, item.0.end as int, item.1.start as int);
    &&& (ka == sc.pos || (0 < ka && (s[ka - 1] == sc.sep || s[ka - 1] == sc.tab || s[ka - 1]
        == sc.eol)))
    &&& (sc.allow_sep ==> (ke == sc.pos || (0 < ke && s[ke - 1] != sc.sep)))
    &&& (sc.allow_sep && va < s.len() ==> s[va] != sc.sep)
}

/// A step of the key-value scan moves forward and yields a [`kv_match`]
/// whose key starts at or after the scan position and is maximal
/// ([`kv_maximal`]), around the first `eq` from the scan position; every
/// such `eq` yields a pair.
pub proof fn lemma_kv_step(sc: KvScan)
    requires
        0 <= sc.pos <= sc.src.len(),
        sc.src.len() <= u32::MAX,
    ensures
        sc.step() matches Some((it, np)) ==> {
            &&& sc.pos < np <= sc.src.len()
            &&& sc.pos <= it.0.start
            &&& it.1.end < np || it.1.end == np == sc.src.len()
            &&& kv_match(sc, it)
            &&& kv_maximal(sc, it)
            &&& find1(sc.src, sc.pos, sc.eq) matches Some(e) && it.0.end <= e < it.1.start
        },
        find1(sc.src, sc.pos, sc.eq) is Some ==> sc.step() is Some,
{
    let s = sc.src;
    let len = s.len() as int;
    lemma_find1(s, sc.pos, sc.eq);
    match find1(s, sc.pos, sc.eq) {
        None => {},
        Some(e) => {
            lemma_trim_back(s, e, sc.pos, sc.sep);
            let key_end = if sc.allow_sep {
                trim_back(s, e, sc.pos, sc.sep)
            } else {
                e
            };
            lemma_word_start(s, key_end, sc.pos, sc.sep, sc.tab, sc.eol);
            lemma_run_end(s, e + 1, sc.sep);
            let vs = if sc.allow_sep {
                run_end(s, e + 1, sc.sep)
            } else {
                e + 1
            };
            lemma_find2(s, vs, sc.end_byte, sc.eol);
            assert(s[e] == sc.eq);
        },
    }
}

/// Whether a pair is a [`kv_match`] does not depend on the scan position.
proof fn lemma_kv_match_at(sc: KvScan, pos: int, item: (Span, Span))
    ensures
        kv_match(sc.at(pos), item) == kv_match(sc, item),
{
}

/// Every remaining pair of a key-value scan is a [`kv_match`] at or after the
/// scan position, and the pairs come in source order without overlap.
pub proof fn lemma_kv_remaining(sc: KvScan)
    requires
        0 <= sc.pos <= sc.src.len(),
        sc.src.len() <= u32::MAX,
    ensures
        forall|i: int|
            0 <= i < sc.remaining().len() ==>
                kv_match(sc, #[trigger] sc.remaining()[i])
                    && sc.pos <= sc.remaining()[i].0.start,
        forall|i: int|
            0 <= i < sc.remaining().len() - 1 ==>
                #[trigger] sc.remaining()[i].1.end <= sc.remaining()[i + 1].0.start,
    decreases sc.src.len() - sc.pos,
{
    lemma_kv_step(sc);
    match sc.step() {
        None => {},
        Some((it, np)) => {
            if !(np <= sc.pos || np > sc.src.len()) {
                let rest = sc.at(np);
                lemma_kv_remaining(rest);
                let r = sc.remaining();
                let rr = rest.remaining();
                assert(r == seq![it] + rr);
                assert forall|i: int| 0 <= i < r.len() implies
                    kv_match(sc, #[trigger] r[i]) && sc.pos <= r[i].0.start by {
                    if i > 0 {
                        assert(r[i] == rr[i - 1]);
                        lemma_kv_match_at(sc, np, rr[i - 1]);
                    }
                }
                assert forall|i: int| 0 <= i < r.len() - 1 implies
                    #[trigger] r[i].1.end <= r[i + 1].0.start by {
                    assert(r[i + 1] == rr[i]);
                    if i > 0 {
                        assert(r[i] == rr[i - 1]);
                    }
                }
            }
        },
    }
}

/// The iterator over `key = value` pairs of a byte slice.
///
/// One streaming pass finds the `eq` bytes. The key is the word before
/// `eq`; the value runs from after `eq` to the first `end_byte` or the end
/// of its line. With `allow_sep`, spaces around `eq` are trimmed from both.
/// Each pair goes to `make` as `(key_span, value_span)`.
#[verifier::reject_recursive_types(T)]
#[verifier::reject_recursive_types(F)]
pub struct KvIter<'a, T, F> where F: Fn(Span, Span) -> T {
    src: &'a [u8],
    eq: u8,
    end_byte: u8,
    allow_sep: bool,
    eol: u8,
    sep: u8,
    tab: u8,
    make: F,
    pos: usize,
    _t: std::marker::PhantomData<T>,
}

impl<'a, T, F> View for KvIter<'a, T, F> where F: Fn(Span, Span) -> T {
    type V = KvScan;

    closed spec fn view(&self) -> KvScan {
        KvScan {
            src: self.src@,
            eq: self.eq,
            end_byte: self.end_byte,
            allow_sep: self.allow_sep,
            eol: self.eol,
            sep: self.sep,
            tab: self.tab,
            pos: self.pos as int,
        }
    }
}

impl<'a, T, F> KvIter<'a, T, F> where F: Fn(Span, Span) -> T {
    #[verifier::type_invariant]
    spec fn inv(self) -> bool {
        &&& self.pos <= self.src@.len()
        &&& self.src@.len() <= MAX_INPUT_LEN
        &&& forall|k: Span, v: Span| call_requires(self.make, (k, v))
    }

    /// The closure that builds each item from `(key_span, value_span)`.
    pub closed spec fn maker(&self) -> F {
        self.make
    }

    /// Create an iterator over `key = value` pairs of `src`.
    pub fn new(
        src: &'a [u8],
        eq: u8,
        end_byte: u8,
        allow_sep: bool,
        eol: u8,
        sep: u8,
        tab: u8,
        make: F,
    ) -> (it: Self)
        requires
            src@.len() <= MAX_INPUT_LEN,
            forall|k: Span, v: Span| call_requires(make, (k, v)),
        ensures
            it@ == (KvScan { src: src@, eq, end_byte, allow_sep, eol, sep, tab, pos: 0 }),
            it.maker() == make,
    {
        KvIter {
            src,
            eq,
            end_byte,
            allow_sep,
            eol,
            sep,
            tab,
            make,
            pos: 0,
            _t: std::marker::PhantomData,
        }
    }

    /// The next pair, built by `make`: the first of the remaining pairs,
    /// which are then the rest; `None` once none remain.
    pub fn next(&mut self) -> (r: Option<T>)
        ensures
            final(self)@ == old(self)@.at(final(self)@.pos),
            final(self).maker() == old(self).maker(),
            match old(self)@.step() {
                Some((it, np)) => r matches Some(item) && call_ensures(
                    old(self).maker(),
                    (it.0, it.1),
                    item,
                ) && final(self)@.pos == np,
                None => r is None && final(self)@.remaining() == Seq::<(Span, Span)>::empty(),
            },
            old(self)@.remaining() == (match old(self)@.step() {
                Some((it, _)) => seq![it] + final(self)@.remaining(),
                None => Seq::<(Span, Span)>::empty(),
            }),
    {
        proof {
            use_type_invariant(&*self);
            lemma_kv_step(self@);
        }
        let src = self.src;
        let len = src.len();
        let bound = self.pos;
        let eq_pos = match find_byte(src, self.pos, self.eq) {
            Some(e) => e,
            None => {
                return None;
            },
        };
        proof {
            lemma_find1(src@, bound as int, self.eq);
            lemma_trim_back(src@, eq_pos as int, bound as int, self.sep);
        }
        let mut key_end = eq_pos;
        if self.allow_sep {
            while key_end > bound && src[key_end - 1] == self.sep
                invariant
                    bound <= key_end <= eq_pos < len,
                    len == src@.len(),
                    trim_back(src@, key_end as int, bound as int, self.sep) == trim_back(
                        src@,
                        eq_pos as int,
                        bound as int,
                        self.sep,
                    ),
                decreases key_end,
            {
                key_end -= 1;
            }
        }
        let mut ks = key_end;
        while ks > bound && src[ks - 1] != self.sep && src[ks - 1] != self.tab && src[ks - 1]
            != self.eol
            invariant
                bound <= ks <= key_end <= eq_pos < len,
                len == src@.len(),
                word_start(src@, ks as int, bound as int, self.sep, self.tab, self.eol)
                    == word_start(src@, key_end as int, bound as int, self.sep, self.tab, self.eol),
            decreases ks,
        {
            ks -= 1;
        }
        let mut val_start = eq_pos + 1;
        if self.allow_sep {
            proof {
                lemma_run_end(src@, eq_pos + 1, self.sep);
            }
            while val_start < len && src[val_start] == self.sep
                invariant
                    eq_pos < val_start <= len,
                    len == src@.len(),
                    run_end(src@, val_start as int, self.sep) == run_end(
                        src@,
                        eq_pos + 1,
                        self.sep,
                    ),
                decreases len - val_start,
            {
                val_start += 1;
            }
        }
        let (val_end, ate) = match find_byte2(src, val_start, self.end_byte, self.eol) {
            Some(rr) => (rr, true),
            None => (len, false),
        };
        self.pos = if ate {
            val_end + 1
        } else {
            val_end
        };
        proof {
            use_type_invariant(&*self);
        }
        Some(
            (self.make)(
                Span::new(ks as u32, key_end as u32),
                Span::new(val_start as u32, val_end as u32),
            ),
        )
    }
}

} // verus!
