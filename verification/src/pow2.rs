//! Powers of two.

use vstd::arithmetic::power2::{
    lemma_pow2_adds, lemma_pow2_pos, lemma_pow2_strictly_increases, lemma_pow2_unfold, pow2,
};
use vstd::prelude::*;

verus! {

/// `n` is a power of two.
pub open spec fn is_pow2(n: nat) -> bool {
    exists|e: nat| #[trigger] pow2(e) == n
}

/// `p` is the least power of two that is not below `n`.
pub open spec fn is_next_pow2(n: nat, p: nat) -> bool {
    &&& is_pow2(p)
    &&& n <= p
    &&& forall|q: nat| #[trigger] is_pow2(q) && n <= q ==> p <= q
}

/// The least power of two that is not below `n`.
pub open spec fn next_pow2(n: nat) -> nat {
    choose|p: nat| is_next_pow2(n, p)
}

/// A power of two is positive.
pub proof fn lemma_pow2_positive(n: nat)
    requires
        is_pow2(n),
    ensures
        n > 0,
{
    let e = choose|e: nat| #[trigger] pow2(e) == n;
    lemma_pow2_pos(e);
}

/// A power of two below another is at most half of it, and divides it twice.
pub proof fn lemma_pow2_step(p: nat, q: nat)
    requires
        is_pow2(p),
        is_pow2(q),
        p < q,
    ensures
        p > 0,
        2 * p <= q,
        is_pow2(2 * p),
        exists|m: nat| m > 0 && q == #[trigger] (2 * p * m),
{
    let a = choose|e: nat| #[trigger] pow2(e) == p;
    let b = choose|e: nat| #[trigger] pow2(e) == q;
    if b <= a {
        if b < a {
            lemma_pow2_strictly_increases(b, a);
        }
        assert(false);
    }
    lemma_pow2_pos(a);
    lemma_pow2_unfold((a + 1) as nat);
    assert(pow2((a + 1) as nat) == 2 * p);
    let c = (b - a - 1) as nat;
    lemma_pow2_adds((a + 1) as nat, c);
    lemma_pow2_pos(c);
    let m = pow2(c);
    assert(q == 2 * p * m);
    assert(2 * p <= q) by (nonlinear_arith)
        requires
            q == 2 * p * m,
            m >= 1,
    ;
}

/// Every number has a power of two that is not below it, and a least one.
proof fn lemma_search(n: nat, p: nat)
    requires
        is_pow2(p),
        forall|q: nat| #[trigger] is_pow2(q) && q < p ==> q < n,
    ensures
        exists|r: nat| is_next_pow2(n, r),
    decreases (if n > p { n - p } else { 0 }),
{
    if n <= p {
        assert(is_next_pow2(n, p));
    } else {
        let a = choose|e: nat| #[trigger] pow2(e) == p;
        lemma_pow2_pos(a);
        lemma_pow2_unfold((a + 1) as nat);
        assert(pow2((a + 1) as nat) == 2 * p);
        assert forall|q: nat| #[trigger] is_pow2(q) && q < 2 * p implies q < n by {
            if p < q {
                lemma_pow2_step(p, q);
            }
        }
        lemma_search(n, 2 * p);
    }
}

/// The least power of two exists and is unique.
pub proof fn lemma_next_pow2(n: nat)
    ensures
        is_next_pow2(n, next_pow2(n)),
        next_pow2(n) > 0,
        forall|p: nat| #[trigger] is_next_pow2(n, p) ==> p == next_pow2(n),
{
    lemma_one_is_pow2();
    assert forall|q: nat| #[trigger] is_pow2(q) && q < 1 implies q < n by {
        lemma_pow2_positive(q);
    }
    lemma_search(n, 1);
    let c = next_pow2(n);
    assert(is_next_pow2(n, c));
    lemma_pow2_positive(c);
    assert forall|p: nat| #[trigger] is_next_pow2(n, p) implies p == c by {
        assert(is_pow2(c) && is_pow2(p));
    }
}

/// One is a power of two.
pub proof fn lemma_one_is_pow2()
    ensures
        is_pow2(1),
        is_pow2(2),
{
    vstd::arithmetic::power2::lemma2_to64();
    assert(pow2(0) == 1);
    assert(pow2(1) == 2);
}

/// The least power of two that is not below `n`, where it fits a machine word.
pub fn next_power_of_two(n: usize) -> (p: usize)
    requires
        next_pow2(n as nat) <= usize::MAX,
    ensures
        p == next_pow2(n as nat),
{
    let ghost top = next_pow2(n as nat);
    let mut p: usize = 1;
    proof {
        lemma_one_is_pow2();
        lemma_next_pow2(n as nat);
    }
    while p < n
        invariant
            is_next_pow2(n as nat, top),
            top <= usize::MAX,
            is_pow2(p as nat),
            p <= top,
        decreases top - p,
    {
        proof {
            lemma_pow2_step(p as nat, top);
        }
        p = p * 2;
    }
    assert(top <= p);
    p
}

/// Half the machine's range is a power of two, so that everything up to it can be padded.
pub proof fn lemma_next_pow2_fits(n: nat)
    requires
        n <= usize::MAX / 2 + 1,
    ensures
        next_pow2(n) <= usize::MAX / 2 + 1,
{
    vstd::arithmetic::power2::lemma2_to64();
    vstd::arithmetic::power2::lemma2_to64_rest();
    let half = (usize::MAX / 2 + 1) as nat;
    assert(usize::MAX == 0xffff_ffff || usize::MAX == 0xffff_ffff_ffff_ffff);
    assert(pow2(31) == 0x8000_0000 && pow2(63) == 0x8000_0000_0000_0000);
    assert(is_pow2(half)) by {
        if usize::MAX == 0xffff_ffff {
            assert(pow2(31) == half);
        } else {
            assert(pow2(63) == half);
        }
    }
    lemma_next_pow2(n);
}

} // verus!
