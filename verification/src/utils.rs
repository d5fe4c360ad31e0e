//! Power-of-two rounding, specified by exact integer arithmetic.
//!
//! `nearest_lower_2_power` and `nearest_upper_2_power` are the two rounding
//! functions the allocator relies on. Their mathematical meaning is captured
//! by the spec functions `lower_pow2` and `upper_pow2`, together with lemmas
//! that pin those functions down as the largest power of two at most `n` and
//! the smallest power of two at least `n`.

use vstd::prelude::*;

verus! {

/// 2 raised to the exponent `e`.
pub open spec fn pow2(e: nat) -> int
    decreases e,
{
    if e == 0 {
        1
    } else {
        2 * pow2((e - 1) as nat)
    }
}

/// `n` is a power of two.
pub open spec fn is_pow2(n: int) -> bool {
    exists|e: nat| n == pow2(e)
}

pub proof fn lemma_pow2_pos(e: nat)
    ensures
        pow2(e) >= 1,
    decreases e,
{
    if e > 0 {
        lemma_pow2_pos((e - 1) as nat);
    }
}

pub proof fn lemma_pow2_mono(e1: nat, e2: nat)
    requires
        e1 <= e2,
    ensures
        pow2(e1) <= pow2(e2),
    decreases e2,
{
    if e2 > 0 {
        lemma_pow2_pos((e2 - 1) as nat);
        if e1 < e2 {
            lemma_pow2_mono(e1, (e2 - 1) as nat);
        }
    }
}

/// A power of two of any value is at least 1.
pub proof fn lemma_is_pow2_pos(n: int)
    requires
        is_pow2(n),
    ensures
        n >= 1,
{
    let e = choose|e: nat| n == pow2(e);
    lemma_pow2_pos(e);
}

/// Distinct powers of two are spaced by at least a factor of two.
pub proof fn lemma_pow2_spacing(p: int, q: int)
    requires
        is_pow2(p),
        is_pow2(q),
        p < q,
    ensures
        2 * p <= q,
{
    let e = choose|e: nat| p == pow2(e);
    let f = choose|f: nat| q == pow2(f);
    if f <= e {
        lemma_pow2_mono(f, e);
    }
    assert(e < f);
    assert(pow2((e + 1) as nat) == 2 * pow2(e));
    lemma_pow2_mono((e + 1) as nat, f);
}

/// The largest power of two less than or equal to `n`, for `n >= 1`.
/// (For `n < 1` the definition bottoms out at 1; no caller relies on that.)
pub open spec fn lower_pow2(n: int) -> int
    decreases n,
{
    if n < 2 {
        1
    } else {
        2 * lower_pow2(n / 2)
    }
}

pub proof fn lemma_lower_pow2_bounds(n: int)
    requires
        n >= 1,
    ensures
        is_pow2(lower_pow2(n)),
        1 <= lower_pow2(n) <= n,
        n < 2 * lower_pow2(n),
    decreases n,
{
    if n < 2 {
        assert(lower_pow2(n) == 1);
        assert(1 == pow2(0));
    } else {
        lemma_lower_pow2_bounds(n / 2);
        let l = lower_pow2(n / 2);
        let e = choose|e: nat| l == pow2(e);
        assert(pow2((e + 1) as nat) == 2 * pow2(e));
        assert(lower_pow2(n) == 2 * l);
        assert(2 * l <= 2 * (n / 2));
        assert(2 * (n / 2) <= n);
        assert(n / 2 <= 2 * l - 1);
        assert(n <= 2 * (n / 2) + 1);
    }
}

/// Any power of two `p` with `p <= n < 2p` is `lower_pow2(n)`.
pub proof fn lemma_lower_pow2_unique(n: int, p: int)
    requires
        n >= 1,
        is_pow2(p),
        p <= n,
        n < 2 * p,
    ensures
        p == lower_pow2(n),
{
    lemma_lower_pow2_bounds(n);
    let l = lower_pow2(n);
    if p < l {
        lemma_pow2_spacing(p, l);
    }
    if l < p {
        lemma_pow2_spacing(l, p);
    }
}

/// The smallest power of two greater than or equal to `n`, for `n >= 1`;
/// defined as 1 for `n <= 1`.
pub open spec fn upper_pow2(n: int) -> int {
    if n <= 1 {
        1
    } else if lower_pow2(n) == n {
        n
    } else {
        2 * lower_pow2(n)
    }
}

pub proof fn lemma_upper_pow2_bounds(n: int)
    requires
        n >= 0,
    ensures
        is_pow2(upper_pow2(n)),
        upper_pow2(n) >= 1,
        n <= upper_pow2(n),
        n >= 1 ==> upper_pow2(n) < 2 * n,
{
    if n <= 1 {
        assert(1 == pow2(0));
    } else {
        lemma_lower_pow2_bounds(n);
        let l = lower_pow2(n);
        if l != n {
            let e = choose|e: nat| l == pow2(e);
            assert(pow2((e + 1) as nat) == 2 * pow2(e));
            assert(l < n);
        }
    }
}

/// Any power of two `p` with `n <= p < 2n` is `upper_pow2(n)`.
pub proof fn lemma_upper_pow2_unique(n: int, p: int)
    requires
        n >= 1,
        is_pow2(p),
        n <= p,
        p < 2 * n,
    ensures
        p == upper_pow2(n),
{
    lemma_upper_pow2_bounds(n);
    let u = upper_pow2(n);
    if p < u {
        lemma_pow2_spacing(p, u);
    }
    if u < p {
        lemma_pow2_spacing(u, p);
        if n == 1 {
            lemma_is_pow2_pos(p);
        }
    }
}

/// `upper_pow2(n)` is the least power of two at least `n`.
pub proof fn lemma_upper_pow2_le(n: int, p: int)
    requires
        n >= 0,
        is_pow2(p),
        n <= p,
    ensures
        upper_pow2(n) <= p,
{
    lemma_upper_pow2_bounds(n);
    lemma_is_pow2_pos(p);
    let u = upper_pow2(n);
    if p < u {
        lemma_pow2_spacing(p, u);
        assert(n >= 1);
    }
}

/// The largest power of two that is less than or equal to `n`.
pub fn nearest_lower_2_power(n: usize) -> (r: usize)
    requires
        n >= 1,
    ensures
        r as int == lower_pow2(n as int),
        is_pow2(r as int),
        1 <= r <= n,
        n < 2 * (r as int),
{
    let mut p: usize = 1;
    let ghost mut e: nat = 0;
    while p <= n / 2
        invariant
            1 <= p <= n,
            p as int == pow2(e),
        decreases n - p,
    {
        proof {
            assert(pow2((e + 1) as nat) == 2 * pow2(e));
            e = e + 1;
        }
        p = p * 2;
    }
    proof {
        assert(is_pow2(p as int));
        lemma_lower_pow2_unique(n as int, p as int);
    }
    p
}

/// The smallest power of two that is greater than or equal to `n`.
/// For `n == 0` the result is 1, the smallest block size the allocator
/// deals in; this is this library's documented choice for that corner.
pub fn nearest_upper_2_power(n: usize) -> (r: usize)
    requires
        upper_pow2(n as int) <= usize::MAX,
    ensures
        r as int == upper_pow2(n as int),
        is_pow2(r as int),
        n <= r,
{
    proof {
        lemma_upper_pow2_bounds(n as int);
    }
    if n <= 1 {
        return 1;
    }
    let mut p: usize = 1;
    let ghost mut e: nat = 0;
    while p < n
        invariant
            1 <= p,
            p as int == pow2(e),
            p == 1 || (p as int) < 2 * (n as int),
            n <= usize::MAX,
            upper_pow2(n as int) <= usize::MAX,
            n >= 2,
        decreases 2 * (n as int) - p,
    {
        proof {
            assert(is_pow2(p as int));
            lemma_upper_pow2_bounds(n as int);
            lemma_pow2_spacing(p as int, upper_pow2(n as int));
            assert(2 * (p as int) <= usize::MAX);
            assert(pow2((e + 1) as nat) == 2 * pow2(e));
            e = e + 1;
        }
        p = p * 2;
    }
    proof {
        assert(is_pow2(p as int));
        lemma_upper_pow2_unique(n as int, p as int);
    }
    p
}

} // verus!
