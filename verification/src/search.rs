//! Byte search: the specifications of "first occurrence at or after a
//! position", the `memchr` calls behind them, and offset-based helpers used
//! by every scanner.
use vstd::prelude::*;
use vstd::slice::slice_subrange;

verus! {

/// First index `i >= from` with `s[i] == b`, if any.
pub open spec fn find1(s: Seq<u8>, from: int, b: u8) -> Option<int>
    decreases s.len() - from,
{
    if from < 0 || from >= s.len() {
        None
    } else if s[from] == b {
        Some(from)
    } else {
        find1(s, from + 1, b)
    }
}

/// First index `i >= from` with `s[i] == a || s[i] == b`, if any.
pub open spec fn find2(s: Seq<u8>, from: int, a: u8, b: u8) -> Option<int>
    decreases s.len() - from,
{
    if from < 0 || from >= s.len() {
        None
    } else if s[from] == a || s[from] == b {
        Some(from)
    } else {
        find2(s, from + 1, a, b)
    }
}

/// First index `i >= from` whose byte is one of `needles`, if any.
pub open spec fn findn(s: Seq<u8>, from: int, needles: Seq<u8>) -> Option<int>
    decreases s.len() - from,
{
    if from < 0 || from >= s.len() {
        None
    } else if needles.contains(s[from]) {
        Some(from)
    } else {
        findn(s, from + 1, needles)
    }
}

/// The end of the line that contains `from`: the first `eol` at or after
/// `from`, or `s.len()`.
pub open spec fn line_end(s: Seq<u8>, from: int, eol: u8) -> int {
    match find1(s, from, eol) {
        Some(i) => i,
        None => s.len() as int,
    }
}

/// `find1` is the first occurrence.
pub proof fn lemma_find1(s: Seq<u8>, from: int, b: u8)
    requires
        0 <= from,
    ensures
        match find1(s, from, b) {
            Some(i) => from <= i < s.len() && s[i] == b && forall|j: int|
                from <= j < i ==> s[j] != b,
            None => forall|j: int| from <= j < s.len() ==> s[j] != b,
        },
    decreases s.len() - from,
{
    if from < s.len() && s[from] != b {
        lemma_find1(s, from + 1, b);
    }
}

/// `find2` is the first occurrence of either byte.
pub proof fn lemma_find2(s: Seq<u8>, from: int, a: u8, b: u8)
    requires
        0 <= from,
    ensures
        match find2(s, from, a, b) {
            Some(i) => from <= i < s.len() && (s[i] == a || s[i] == b) && forall|j: int|
                from <= j < i ==> s[j] != a && s[j] != b,
            None => forall|j: int| from <= j < s.len() ==> s[j] != a && s[j] != b,
        },
    decreases s.len() - from,
{
    if from < s.len() && !(s[from] == a || s[from] == b) {
        lemma_find2(s, from + 1, a, b);
    }
}

/// `findn` is the first occurrence of any needle.
pub proof fn lemma_findn(s: Seq<u8>, from: int, needles: Seq<u8>)
    requires
        0 <= from,
    ensures
        match findn(s, from, needles) {
            Some(i) => from <= i < s.len() && needles.contains(s[i]) && forall|j: int|
                from <= j < i ==> !needles.contains(s[j]),
            None => forall|j: int| from <= j < s.len() ==> !needles.contains(s[j]),
        },
    decreases s.len() - from,
{
    if from < s.len() && !needles.contains(s[from]) {
        lemma_findn(s, from + 1, needles);
    }
}

/// `findn` with a single needle is `find1`.
pub proof fn lemma_findn_one(s: Seq<u8>, from: int, ns: Seq<u8>, b: u8)
    requires
        forall|x: u8| ns.contains(x) <==> x == b,
    ensures
        findn(s, from, ns) == find1(s, from, b),
    decreases s.len() - from,
{
    if 0 <= from < s.len() && s[from] != b {
        lemma_findn_one(s, from + 1, ns, b);
    }
}

/// `findn` with two needles is `find2`.
pub proof fn lemma_findn_two(s: Seq<u8>, from: int, ns: Seq<u8>, a: u8, b: u8)
    requires
        forall|x: u8| ns.contains(x) <==> (x == a || x == b),
    ensures
        findn(s, from, ns) == find2(s, from, a, b),
    decreases s.len() - from,
{
    if 0 <= from < s.len() && !(s[from] == a || s[from] == b) {
        lemma_findn_two(s, from + 1, ns, a, b);
    }
}

/// `findn` skips a stretch holding no needle.
pub proof fn lemma_findn_skip(s: Seq<u8>, a: int, b: int, ns: Seq<u8>)
    requires
        0 <= a <= b <= s.len(),
        forall|j: int| a <= j < b ==> !ns.contains(#[trigger] s[j]),
    ensures
        findn(s, a, ns) == findn(s, b, ns),
    decreases b - a,
{
    if a < b {
        lemma_findn_skip(s, a + 1, b, ns);
    }
}

/// A first occurrence determines `find1`.
pub proof fn lemma_find1_is(s: Seq<u8>, from: int, b: u8, i: int)
    requires
        0 <= from <= i < s.len(),
        s[i] == b,
        forall|j: int| from <= j < i ==> s[j] != b,
    ensures
        find1(s, from, b) == Some(i),
{
    lemma_find1(s, from, b);
}

/// `memchr::memchr`: the index of the first occurrence of `needle` in
/// `haystack`, or `None` when it does not occur (as its documentation
/// states).
#[verifier::external_body]
fn memchr1(needle: u8, haystack: &[u8]) -> (r: Option<usize>)
    ensures
        match r {
            Some(i) => i < haystack@.len() && haystack@[i as int] == needle && forall|j: int|
                0 <= j < i ==> haystack@[j] != needle,
            None => forall|j: int| 0 <= j < haystack@.len() ==> haystack@[j] != needle,
        },
{
    memchr::memchr(needle, haystack)
}

/// `memchr::memchr2`: the index of the first byte of `haystack` equal to
/// `n1` or `n2`, or `None` when neither occurs (as its documentation states).
#[verifier::external_body]
fn memchr2(n1: u8, n2: u8, haystack: &[u8]) -> (r: Option<usize>)
    ensures
        match r {
            Some(i) => i < haystack@.len() && (haystack@[i as int] == n1 || haystack@[i as int]
                == n2) && forall|j: int|
                0 <= j < i ==> haystack@[j] != n1 && haystack@[j] != n2,
            None => forall|j: int|
                0 <= j < haystack@.len() ==> haystack@[j] != n1 && haystack@[j] != n2,
        },
{
    memchr::memchr2(n1, n2, haystack)
}

/// `memchr::memchr3`: the index of the first byte of `haystack` equal to
/// `n1`, `n2` or `n3`, or `None` when none occurs (as its documentation
/// states).
#[verifier::external_body]
fn memchr3(n1: u8, n2: u8, n3: u8, haystack: &[u8]) -> (r: Option<usize>)
    ensures
        match r {
            Some(i) => i < haystack@.len() && (haystack@[i as int] == n1 || haystack@[i as int]
                == n2 || haystack@[i as int] == n3) && forall|j: int|
                0 <= j < i ==> haystack@[j] != n1 && haystack@[j] != n2 && haystack@[j] != n3,
            None => forall|j: int|
                0 <= j < haystack@.len() ==> haystack@[j] != n1 && haystack@[j] != n2
                    && haystack@[j] != n3,
        },
{
    memchr::memchr3(n1, n2, n3, haystack)
}

/// The first `b` at or after `from` (a `memchr` over `src[from..]`).
pub fn find_byte(src: &[u8], from: usize, b: u8) -> (r: Option<usize>)
    requires
        from <= src@.len(),
    ensures
        r == (match find1(src@, from as int, b) {
            Some(i) => Some(i as usize),
            None => None::<usize>,
        }),
        r matches Some(i) ==> from <= i < src@.len() && src@[i as int] == b,
{
    let hay = slice_subrange(src, from, src.len());
    let r = memchr1(b, hay);
    proof {
        lemma_find1(src@, from as int, b);
    }
    match r {
        Some(i) => {
            assert(hay@[i as int] == src@[from + i]);
            assert forall|j: int| from <= j < from + i implies src@[j] != b by {
                assert(hay@[j - from] == src@[j]);
            }
            proof {
                lemma_find1_is(src@, from as int, b, from + i);
            }
            Some(from + i)
        },
        None => {
            assert forall|j: int| from <= j < src@.len() implies src@[j] != b by {
                assert(hay@[j - from] == src@[j]);
            }
            None
        },
    }
}

/// The first `a` or `b` at or after `from` (a `memchr2` over `src[from..]`).
pub fn find_byte2(src: &[u8], from: usize, a: u8, b: u8) -> (r: Option<usize>)
    requires
        from <= src@.len(),
    ensures
        r == (match find2(src@, from as int, a, b) {
            Some(i) => Some(i as usize),
            None => None::<usize>,
        }),
        r matches Some(i) ==> from <= i < src@.len() && (src@[i as int] == a || src@[i as int]
            == b),
{
    let hay = slice_subrange(src, from, src.len());
    let r = memchr2(a, b, hay);
    proof {
        lemma_find2(src@, from as int, a, b);
    }
    match r {
        Some(i) => {
            assert(hay@[i as int] == src@[from + i]);
            assert forall|j: int| from <= j < from + i implies src@[j] != a && src@[j] != b by {
                assert(hay@[j - from] == src@[j]);
            }
            Some(from + i)
        },
        None => {
            assert forall|j: int| from <= j < src@.len() implies src@[j] != a && src@[j] != b by {
                assert(hay@[j - from] == src@[j]);
            }
            None
        },
    }
}

/// The first byte in `needles` (three of them) at or after `from` (a
/// `memchr3` over `src[from..]`).
pub fn find_byte3(src: &[u8], from: usize, a: u8, b: u8, c: u8) -> (r: Option<usize>)
    requires
        from <= src@.len(),
    ensures
        r == (match findn(src@, from as int, seq![a, b, c]) {
            Some(i) => Some(i as usize),
            None => None::<usize>,
        }),
{
    let hay = slice_subrange(src, from, src.len());
    let r = memchr3(a, b, c, hay);
    let ghost ns = seq![a, b, c];
    proof {
        lemma_findn(src@, from as int, ns);
        assert(forall|x: u8| ns.contains(x) <==> (x == a || x == b || x == c)) by {
            assert forall|x: u8| (x == a || x == b || x == c) implies ns.contains(x) by {
                if x == a {
                    assert(ns[0] == x);
                } else if x == b {
                    assert(ns[1] == x);
                } else {
                    assert(ns[2] == x);
                }
            }
        }
    }
    match r {
        Some(i) => {
            assert(hay@[i as int] == src@[from + i]);
            assert forall|j: int| from <= j < from + i implies !ns.contains(src@[j]) by {
                assert(hay@[j - from] == src@[j]);
            }
            Some(from + i)
        },
        None => {
            assert forall|j: int| from <= j < src@.len() implies !ns.contains(src@[j]) by {
                assert(hay@[j - from] == src@[j]);
            }
            None
        },
    }
}

/// The first byte of `src[from..]` that is one of the first `nn` of
/// `needles` (`nn <= 3`): no search at all for `nn == 0`, otherwise the
/// `memchr` variant of matching width.
pub fn find_any_of(needles: &[u8; 3], nn: usize, src: &[u8], from: usize) -> (r: Option<usize>)
    requires
        nn <= 3,
        from <= src@.len(),
    ensures
        r == (match findn(src@, from as int, needles@.take(nn as int)) {
            Some(i) => Some(i as usize),
            None => None::<usize>,
        }),
{
    let ghost ns = needles@.take(nn as int);
    if nn == 0 {
        proof {
            lemma_findn(src@, from as int, ns);
            assert(forall|x: u8| !ns.contains(x));
            if findn(src@, from as int, ns) is Some {
                assert(false);
            }
        }
        None
    } else if nn == 1 {
        proof {
            assert forall|x: u8| ns.contains(x) <==> x == needles@[0] by {
                if x == needles@[0] {
                    assert(ns[0] == x);
                }
            }
            lemma_findn_one(src@, from as int, ns, needles[0]);
        }
        find_byte(src, from, needles[0])
    } else if nn == 2 {
        proof {
            assert forall|x: u8| ns.contains(x) <==> (x == needles@[0] || x == needles@[1]) by {
                if x == needles@[0] {
                    assert(ns[0] == x);
                } else if x == needles@[1] {
                    assert(ns[1] == x);
                }
            }
            lemma_findn_two(src@, from as int, ns, needles[0], needles[1]);
        }
        find_byte2(src, from, needles[0], needles[1])
    } else {
        proof {
            let n3 = seq![needles@[0], needles@[1], needles@[2]];
            assert(ns =~= n3);
        }
        find_byte3(src, from, needles[0], needles[1], needles[2])
    }
}

} // verus!
