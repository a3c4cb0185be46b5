//! Probing a byte predicate over all 256 values: the table of accepted
//! bytes, and — when at most three bytes are accepted — those bytes as search
//! needles for a streaming scan.
use vstd::prelude::*;

verus! {

/// The bytes `b < k` accepted by the table, in increasing order.
pub open spec fn accepted(accept: Seq<bool>, k: int) -> Seq<u8>
    decreases k,
{
    if k <= 0 {
        Seq::empty()
    } else {
        accepted(accept, k - 1) + if accept[k - 1] {
            seq![(k - 1) as u8]
        } else {
            Seq::<u8>::empty()
        }
    }
}

/// `accepted` holds exactly the accepted bytes below `k`.
pub proof fn lemma_accepted(accept: Seq<bool>, k: int)
    requires
        0 <= k <= 256,
        accept.len() == 256,
    ensures
        forall|x: u8| accepted(accept, k).contains(x) <==> (x < k && accept[x as int]),
        accepted(accept, k).len() <= k,
    decreases k,
{
    if k > 0 {
        lemma_accepted(accept, k - 1);
        let prev = accepted(accept, k - 1);
        let cur = accepted(accept, k);
        let tail = if accept[k - 1] {
            seq![(k - 1) as u8]
        } else {
            Seq::<u8>::empty()
        };
        assert(cur == prev + tail);
        assert forall|x: u8| cur.contains(x) <==> (x < k && accept[x as int]) by {
            if x < k - 1 && accept[x as int] {
                let i = choose|i: int| 0 <= i < prev.len() && prev[i] == x;
                assert(cur[i] == x);
            }
            if x == k - 1 && accept[x as int] {
                assert(tail[0] == x);
                assert(cur[prev.len() as int] == x);
            }
            if cur.contains(x) {
                let i = choose|i: int| 0 <= i < cur.len() && cur[i] == x;
                if i < prev.len() {
                    assert(prev[i] == x);
                } else {
                    assert(tail[i - prev.len()] == x);
                    assert(accept[k - 1]);
                    assert(x == k - 1);
                }
            }
        }
    }
}

proof fn lemma_accepted_prefix(a1: Seq<bool>, a2: Seq<bool>, k: int)
    requires
        0 <= k <= a1.len(),
        k <= a2.len(),
        forall|i: int| 0 <= i < k ==> a1[i] == a2[i],
    ensures
        accepted(a1, k) == accepted(a2, k),
    decreases k,
{
    if k > 0 {
        lemma_accepted_prefix(a1, a2, k - 1);
    }
}

/// Probe `matches` over all 256 byte values.
///
/// Returns the table of answers and, when at most three bytes are accepted,
/// `Some(n)` with those `n` bytes in increasing order at the front of
/// `needles`; `None` when more are accepted.
pub fn probe_matcher<M: Fn(u8) -> bool>(matches: &M, needles: &mut [u8; 3]) -> (r: (
    Option<usize>,
    Vec<bool>,
))
    requires
        forall|b: u8| call_requires(*matches, (b,)),
    ensures
        r.1@.len() == 256,
        forall|b: u8| call_ensures(*matches, (b,), #[trigger] r.1@[b as int]),
        accepted(r.1@, 256).len() <= 3 ==> r.0 == Some(accepted(r.1@, 256).len() as usize)
            && final(needles)@.take(accepted(r.1@, 256).len() as int) == accepted(r.1@, 256),
        accepted(r.1@, 256).len() > 3 ==> r.0 is None,
{
    let mut accept: Vec<bool> = Vec::new();
    let mut total: usize = 0;
    let mut b: u16 = 0;
    while b < 256
        invariant
            b <= 256,
            accept@.len() == b,
            forall|x: u8| x < b ==> call_ensures(*matches, (x,), #[trigger] accept@[x as int]),
            forall|x: u8| call_requires(*matches, (x,)),
            total == accepted(accept@, b as int).len(),
            total <= b,
            needles@.len() == 3,
            needles@.take(if total < 3 { total as int } else { 3 }) == accepted(
                accept@,
                b as int,
            ).take(if total < 3 { total as int } else { 3 }),
        decreases 256 - b,
    {
        let x = b as u8;
        let v = matches(x);
        let ghost old_acc = accept@;
        let ghost old_needles = needles@;
        accept.push(v);
        proof {
            lemma_accepted_prefix(old_acc, accept@, b as int);
            assert(accepted(accept@, b + 1) == accepted(old_acc, b as int) + if v {
                seq![x]
            } else {
                Seq::<u8>::empty()
            });
        }
        if v {
            if total < 3 {
                needles[total] = x;
                proof {
                    let acc = accepted(accept@, b + 1);
                    assert(needles@.take(total + 1) =~= acc.take(total + 1)) by {
                        assert forall|i: int| 0 <= i < total + 1 implies needles@[i] == acc[i] by {
                            if i < total {
                                assert(old_needles.take(total as int)[i] == accepted(
                                    old_acc,
                                    b as int,
                                ).take(total as int)[i]);
                            }
                        }
                    }
                }
            } else {
                proof {
                    let acc = accepted(accept@, b + 1);
                    assert(needles@.take(3) =~= acc.take(3)) by {
                        assert forall|i: int| 0 <= i < 3 implies needles@[i] == acc[i] by {
                            assert(old_needles.take(3)[i] == accepted(old_acc, b as int).take(3)[i]);
                        }
                    }
                }
            }
            total += 1;
        } else {
            proof {
                assert(accepted(accept@, b + 1) =~= accepted(old_acc, b as int));
            }
        }
        b += 1;
    }
    if total <= 3 {
        proof {
            assert(accepted(accept@, 256).take(total as int) =~= accepted(accept@, 256));
        }
        (Some(total), accept)
    } else {
        (None, accept)
    }
}

} // verus!
