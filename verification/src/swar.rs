//! Multi-byte search: the first byte of a slice that is any of a fixed set
//! of target bytes.
//!
//! [`find_any`] is the entry point. Up to three targets go to the `memchr`
//! family; wider sets use a SWAR scan that tests eight bytes per step inside
//! one `u64` word, then a scalar tail for the last few bytes.
use vstd::prelude::*;
use vstd::bytes::{
    spec_u64_from_le_bytes, spec_u64_to_le_bytes_open, lemma_auto_spec_u64_to_from_le_bytes,
    spec_u64_to_le_bytes_to_open, u64_from_le_bytes,
};
use vstd::slice::slice_subrange;
use vstd::std_specs::bits::{u64_trailing_zeros, axiom_u64_trailing_zeros};
use crate::search::{
    findn, lemma_findn, lemma_findn_one, lemma_findn_two, lemma_findn_skip, find_byte, find_byte2,
    find_byte3,
};

verus! {

/// Multiplier that broadcasts a byte into every byte lane of a `u64`.
pub const ONES: u64 = 0x0101_0101_0101_0101;

/// The high bit of every byte lane of a `u64`.
pub const HIGHS: u64 = 0x8080_8080_8080_8080;

/// Byte lane `k` (little-endian) of `x`.
pub open spec fn lane(x: u64, k: u64) -> u64 {
    (x >> ((8 * k) as u64)) & 0xff
}

/// Bit `s` of `x` is set.
pub open spec fn bit(x: u64, s: u64) -> bool {
    (x >> s) & 1 == 1
}

/// The bits below bit `s`.
pub open spec fn low_bits(s: u64) -> u64 {
    ((1u64 << s) - 1) as u64
}

/// `x - ONES`, wrapping.
pub open spec fn minus_ones(x: u64) -> u64 {
    if x >= ONES {
        (x - ONES) as u64
    } else {
        (x + 0xfefe_fefe_fefe_feff) as u64
    }
}

/// The SWAR zero-lane mask of `x`: `(x - ONES) & !x & HIGHS`.
pub open spec fn zero_mask(x: u64) -> u64 {
    minus_ones(x) & !x & HIGHS
}

/// `b` in every byte lane.
pub open spec fn spread(b: u8) -> u64 {
    ((b as u64) * ONES) as u64
}

/// The SWAR zero-lane mask of `x`, lane by lane: only lane high bits are
/// ever set; the first zero lane of `x` is marked, and no lane before it; a
/// word with no zero lane has an empty mask.
proof fn lemma_zero_mask_lanes(x: u64)
    by (bit_vector)
    ensures
        zero_mask(x) & low_bits(7) == 0 && (bit(zero_mask(x), 7) == (lane(x, 0) == 0)),
        lane(x, 0) != 0 ==> zero_mask(x) & low_bits(15) == 0 && (bit(zero_mask(x), 15) == (
        lane(x, 1) == 0)),
        lane(x, 0) != 0 && lane(x, 1) != 0 ==> zero_mask(x) & low_bits(23) == 0 && (bit(
            zero_mask(x),
            23,
        ) == (lane(x, 2) == 0)),
        lane(x, 0) != 0 && lane(x, 1) != 0 && lane(x, 2) != 0 ==> zero_mask(x) & low_bits(31) == 0
            && (bit(zero_mask(x), 31) == (lane(x, 3) == 0)),
        lane(x, 0) != 0 && lane(x, 1) != 0 && lane(x, 2) != 0 && lane(x, 3) != 0 ==> zero_mask(x)
            & low_bits(39) == 0 && (bit(zero_mask(x), 39) == (lane(x, 4) == 0)),
        lane(x, 0) != 0 && lane(x, 1) != 0 && lane(x, 2) != 0 && lane(x, 3) != 0 && lane(x, 4)
            != 0 ==> zero_mask(x) & low_bits(47) == 0 && (bit(zero_mask(x), 47) == (lane(x, 5)
            == 0)),
        lane(x, 0) != 0 && lane(x, 1) != 0 && lane(x, 2) != 0 && lane(x, 3) != 0 && lane(x, 4)
            != 0 && lane(x, 5) != 0 ==> zero_mask(x) & low_bits(55) == 0 && (bit(zero_mask(x), 55)
            == (lane(x, 6) == 0)),
        lane(x, 0) != 0 && lane(x, 1) != 0 && lane(x, 2) != 0 && lane(x, 3) != 0 && lane(x, 4)
            != 0 && lane(x, 5) != 0 && lane(x, 6) != 0 ==> zero_mask(x) & low_bits(63) == 0 && (
        bit(zero_mask(x), 63) == (lane(x, 7) == 0)),
        lane(x, 0) != 0 && lane(x, 1) != 0 && lane(x, 2) != 0 && lane(x, 3) != 0 && lane(x, 4)
            != 0 && lane(x, 5) != 0 && lane(x, 6) != 0 && lane(x, 7) != 0 ==> zero_mask(x) == 0,
{
}

/// A lane of `c ^ spread(b)` is zero exactly where `c` holds `b`; the
/// lanes of `c` are its little-endian bytes.
proof fn lemma_xor_lanes(c: u64, b: u8)
    by (bit_vector)
    ensures
        (lane(c ^ spread(b), 0) == 0) == (lane(c, 0) == b as u64),
        (lane(c ^ spread(b), 1) == 0) == (lane(c, 1) == b as u64),
        (lane(c ^ spread(b), 2) == 0) == (lane(c, 2) == b as u64),
        (lane(c ^ spread(b), 3) == 0) == (lane(c, 3) == b as u64),
        (lane(c ^ spread(b), 4) == 0) == (lane(c, 4) == b as u64),
        (lane(c ^ spread(b), 5) == 0) == (lane(c, 5) == b as u64),
        (lane(c ^ spread(b), 6) == 0) == (lane(c, 6) == b as u64),
        (lane(c ^ spread(b), 7) == 0) == (lane(c, 7) == b as u64),
        lane(c, 0) == c & 0xff,
        lane(c, 1) == (c >> 8) & 0xff,
        lane(c, 2) == (c >> 16) & 0xff,
        lane(c, 3) == (c >> 24) & 0xff,
        lane(c, 4) == (c >> 32) & 0xff,
        lane(c, 5) == (c >> 40) & 0xff,
        lane(c, 6) == (c >> 48) & 0xff,
        lane(c, 7) == (c >> 56) & 0xff,
        c & 0xff < 256,
        (c >> 8) & 0xff < 256,
        (c >> 16) & 0xff < 256,
        (c >> 24) & 0xff < 256,
        (c >> 32) & 0xff < 256,
        (c >> 40) & 0xff < 256,
        (c >> 48) & 0xff < 256,
        (c >> 56) & 0xff < 256,
{
}

/// Or-ing masks keeps their low bits clear and unites their bits.
proof fn lemma_or_bits(a: u64, b: u64, s: u64)
    by (bit_vector)
    requires
        s < 64,
    ensures
        a & low_bits(s) == 0 && b & low_bits(s) == 0 ==> (a | b) & low_bits(s) == 0,
        bit(a | b, s) == (bit(a, s) || bit(b, s)),
        a == 0 && b == 0 ==> a | b == 0,
{
}

/// The empty mask has no bit set.
proof fn lemma_zero_bits(s: u64)
    by (bit_vector)
    ensures
        !bit(0, s),
        0u64 & low_bits(s) == 0,
{
}

/// A mask with its low bits clear has no set bit among them.
proof fn lemma_low_clear(m: u64, s: u64, j: u64)
    by (bit_vector)
    requires
        s < 64,
        j < s,
        m & low_bits(s) == 0,
    ensures
        (m >> j) & 1 == 0,
{
}

/// The lanes of a word read little-endian from eight bytes are those bytes.
proof fn lemma_chunk_lanes(c: u64, s8: Seq<u8>)
    requires
        s8.len() == 8,
        c == spec_u64_from_le_bytes(s8),
    ensures
        forall|k: u64| k < 8 ==> #[trigger] lane(c, k) == s8[k as int] as u64,
{
    lemma_auto_spec_u64_to_from_le_bytes();
    spec_u64_to_le_bytes_to_open(c);
    lemma_xor_lanes(c, 0);
    let o = spec_u64_to_le_bytes_open(c);
    assert(o == s8);
    assert forall|k: u64| k < 8 implies #[trigger] lane(c, k) == s8[k as int] as u64 by {
        assert(o[k as int] == s8[k as int]);
        if k == 0 {
        } else if k == 1 {
        } else if k == 2 {
        } else if k == 3 {
        } else if k == 4 {
        } else if k == 5 {
        } else if k == 6 {
        } else {
            assert(k == 7);
        }
    }
}

/// The zero-lane mask of one target over a chunk whose bytes before lane
/// `kk` are not that target: its bits below the high bit of lane `kk` are
/// clear and that bit says whether lane `kk` holds the target; with
/// `kk == 8` the mask is empty.
proof fn lemma_target_mask(c: u64, b: u8, kk: int, s8: Seq<u8>)
    requires
        s8.len() == 8,
        forall|k: u64| k < 8 ==> #[trigger] lane(c, k) == s8[k as int] as u64,
        0 <= kk <= 8,
        forall|j: int| 0 <= j < kk ==> s8[j] != b,
    ensures
        kk < 8 ==> zero_mask(c ^ spread(b)) & low_bits((8 * kk + 7) as u64) == 0 && (bit(
            zero_mask(c ^ spread(b)),
            (8 * kk + 7) as u64,
        ) == (s8[kk] == b)),
        kk == 8 ==> zero_mask(c ^ spread(b)) == 0,
{
    let x = c ^ spread(b);
    lemma_xor_lanes(c, b);
    lemma_zero_mask_lanes(x);
    assert(lane(c, 0) == s8[0] as u64);
    assert(lane(c, 1) == s8[1] as u64);
    assert(lane(c, 2) == s8[2] as u64);
    assert(lane(c, 3) == s8[3] as u64);
    assert(lane(c, 4) == s8[4] as u64);
    assert(lane(c, 5) == s8[5] as u64);
    assert(lane(c, 6) == s8[6] as u64);
    assert(lane(c, 7) == s8[7] as u64);
}

/// A mask whose bits below `s` are clear and whose bit `s` is set has `s`
/// trailing zeros.
proof fn lemma_trailing_at(m: u64, s: u64)
    requires
        s < 64,
        m & low_bits(s) == 0,
        bit(m, s),
    ensures
        u64_trailing_zeros(m) == s,
{
    axiom_u64_trailing_zeros(m);
    let t = u64_trailing_zeros(m) as u64;
    if t < s {
        lemma_low_clear(m, s, t);
    } else if t > s {
        assert((m >> s) & 1u64 == 0u64);
    }
}

/// `b` in every byte lane of a `u64`.
fn broadcast(b: u8) -> (r: u64)
    ensures
        r == spread(b),
{
    b as u64 * ONES
}

/// The SWAR mask with the high bit set in each lane where `chunk` holds the
/// byte that `bcast` broadcasts (exactly so up to the first such lane).
fn has_byte(chunk: u64, bcast: u64) -> (r: u64)
    ensures
        r == zero_mask(chunk ^ bcast),
{
    let x = chunk ^ bcast;
    x.wrapping_sub(ONES) & !x & HIGHS
}

/// The index of the first byte of `src` that is one of `targets`, or `None`
/// when none occurs.
///
/// One, two or three targets go to `memchr`, `memchr2` and `memchr3`; wider
/// sets to the SWAR scan.
pub fn find_any<const N: usize>(targets: [u8; N], src: &[u8]) -> (r: Option<usize>)
    ensures
        r == (match findn(src@, 0, targets@) {
            Some(i) => Some(i as usize),
            None => None::<usize>,
        }),
{
    let ghost ns = targets@;
    if N == 1 {
        proof {
            assert forall|x: u8| ns.contains(x) <==> x == ns[0] by {
                if x == ns[0] {
                    assert(ns[0] == x);
                }
            }
            lemma_findn_one(src@, 0, ns, targets[0]);
        }
        find_byte(src, 0, targets[0])
    } else if N == 2 {
        proof {
            assert forall|x: u8| ns.contains(x) <==> (x == ns[0] || x == ns[1]) by {
                if x == ns[0] {
                    assert(ns[0] == x);
                } else if x == ns[1] {
                    assert(ns[1] == x);
                }
            }
            lemma_findn_two(src@, 0, ns, targets[0], targets[1]);
        }
        find_byte2(src, 0, targets[0], targets[1])
    } else if N == 3 {
        proof {
            assert(ns =~= seq![ns[0], ns[1], ns[2]]);
        }
        find_byte3(src, 0, targets[0], targets[1], targets[2])
    } else {
        find_any_wide(targets, src)
    }
}

/// SWAR scan for any number of targets: eight bytes per step, each target's
/// zero-lane mask or-ed together, the first marked lane found by counting
/// trailing zeros; then a scalar scan of the last few bytes.
fn find_any_wide<const N: usize>(targets: [u8; N], src: &[u8]) -> (r: Option<usize>)
    ensures
        r == (match findn(src@, 0, targets@) {
            Some(i) => Some(i as usize),
            None => None::<usize>,
        }),
{
    let ghost ns = targets@;
    let len = src.len();
    let mut bcasts: Vec<u64> = Vec::new();
    let mut t: usize = 0;
    while t < N
        invariant
            t <= N,
            ns == targets@,
            ns.len() == N,
            bcasts@.len() == t,
            forall|k: int| 0 <= k < t ==> bcasts@[k] == spread(#[trigger] ns[k]),
        decreases N - t,
    {
        bcasts.push(broadcast(targets[t]));
        t += 1;
    }
    let mut i: usize = 0;
    while len - i >= 8
        invariant
            i <= len == src@.len(),
            ns == targets@,
            ns.len() == N,
            bcasts@.len() == N,
            forall|k: int| 0 <= k < N ==> bcasts@[k] == spread(#[trigger] ns[k]),
            findn(src@, 0, ns) == findn(src@, i as int, ns),
        decreases len - i,
    {
        let s8 = slice_subrange(src, i, i + 8);
        let chunk = u64_from_le_bytes(s8);
        proof {
            lemma_chunk_lanes(chunk, s8@);
            lemma_findn(src@, i as int, ns);
        }
        let ghost kk: int = match findn(src@, i as int, ns) {
            Some(p) => if p < i + 8 {
                p - i
            } else {
                8
            },
            None => 8,
        };
        proof {
            assert forall|j: int| 0 <= j < kk implies !ns.contains(#[trigger] s8@[j]) by {
                assert(s8@[j] == src@[i + j]);
            }
            if kk < 8 {
                assert(s8@[kk] == src@[i + kk]);
            }
        }
        let mut mask: u64 = 0;
        let mut t: usize = 0;
        proof {
            lemma_zero_bits((8 * kk + 7) as u64);
        }
        while t < N
            invariant
                t <= N,
                ns == targets@,
                ns.len() == N,
                bcasts@.len() == N,
                forall|k: int| 0 <= k < N ==> bcasts@[k] == spread(#[trigger] ns[k]),
                s8@.len() == 8,
                forall|k: u64| k < 8 ==> #[trigger] lane(chunk, k) == s8@[k as int] as u64,
                0 <= kk <= 8,
                forall|j: int| 0 <= j < kk ==> !ns.contains(#[trigger] s8@[j]),
                kk < 8 ==> mask & low_bits((8 * kk + 7) as u64) == 0 && (bit(
                    mask,
                    (8 * kk + 7) as u64,
                ) == exists|k: int| 0 <= k < t && #[trigger] ns[k] == s8@[kk]),
                kk == 8 ==> mask == 0,
            decreases N - t,
        {
            let h = has_byte(chunk, bcasts[t]);
            proof {
                let b = ns[t as int];
                assert forall|j: int| 0 <= j < kk implies s8@[j] != b by {
                    if s8@[j] == b {
                        assert(ns[t as int] == s8@[j]);
                    }
                }
                lemma_target_mask(chunk, b, kk, s8@);
                if kk < 8 {
                    lemma_or_bits(mask, h, (8 * kk + 7) as u64);
                    if ns[t as int] == s8@[kk] {
                        assert(exists|k: int| 0 <= k < t + 1 && #[trigger] ns[k] == s8@[kk]);
                    }
                    if exists|k: int| 0 <= k < t + 1 && #[trigger] ns[k] == s8@[kk] {
                        let k = choose|k: int| 0 <= k < t + 1 && #[trigger] ns[k] == s8@[kk];
                        if k < t {
                            assert(exists|k: int| 0 <= k < t && #[trigger] ns[k] == s8@[kk]);
                        }
                    }
                } else {
                    lemma_or_bits(mask, h, 0);
                }
            }
            mask = mask | h;
            t += 1;
        }
        if mask != 0 {
            proof {
                if kk == 8 {
                    assert(false);
                }
                assert(ns.contains(s8@[kk])) by {
                    let k = choose|k: int| 0 <= k < N && #[trigger] ns[k] == s8@[kk];
                    assert(ns[k] == s8@[kk]);
                }
                lemma_trailing_at(mask, (8 * kk + 7) as u64);
            }
            let tz = mask.trailing_zeros();
            return Some(i + (tz / 8) as usize);
        }
        proof {
            if kk < 8 {
                lemma_zero_bits((8 * kk + 7) as u64);
                assert(src@[i + kk] == s8@[kk]);
                assert(!ns.contains(s8@[kk])) by {
                    if ns.contains(s8@[kk]) {
                        let k = choose|k: int| 0 <= k < ns.len() && ns[k] == s8@[kk];
                        assert(exists|k: int| 0 <= k < N && #[trigger] ns[k] == s8@[kk]);
                    }
                }
                assert(false);
            }
            assert forall|j: int| i <= j < i + 8 implies !ns.contains(#[trigger] src@[j]) by {
                assert(s8@[j - i] == src@[j]);
            }
            lemma_findn_skip(src@, i as int, i + 8, ns);
        }
        i += 8;
    }
    while i < len
        invariant
            i <= len == src@.len(),
            ns == targets@,
            ns.len() == N,
            findn(src@, 0, ns) == findn(src@, i as int, ns),
        decreases len - i,
    {
        let b = src[i];
        let mut t: usize = 0;
        while t < N
            invariant
                t <= N,
                ns == targets@,
                ns.len() == N,
                b == src@[i as int],
                i < len == src@.len(),
                findn(src@, 0, ns) == findn(src@, i as int, ns),
                forall|k: int| 0 <= k < t ==> ns[k] != b,
            decreases N - t,
        {
            if b == targets[t] {
                proof {
                    assert(ns[t as int] == b);
                    assert(ns.contains(b));
                    lemma_findn(src@, i as int, ns);
                }
                return Some(i);
            }
            t += 1;
        }
        proof {
            assert(!ns.contains(b));
        }
        i += 1;
    }
    proof {
        lemma_findn(src@, i as int, ns);
    }
    None
}

} // verus!
