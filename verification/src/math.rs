//! Integer square roots, used to normalize motion steps without
//! floating-point arithmetic.

use vstd::prelude::*;

verus! {

/// Floor of the square root of `n`.
pub open spec fn isqrt(n: nat) -> nat
    decreases n,
{
    if n == 0 {
        0
    } else {
        let r = isqrt((n - 1) as nat);
        if (r + 1) * (r + 1) <= n {
            r + 1
        } else {
            r
        }
    }
}

/// Ceiling of the square root of `n`.
pub open spec fn sqrt_ceil(n: nat) -> nat {
    if isqrt(n) * isqrt(n) == n {
        isqrt(n)
    } else {
        isqrt(n) + 1
    }
}

/// `isqrt(n)` is the largest integer whose square is at most `n`.
pub proof fn lemma_isqrt_bracket(n: nat)
    ensures
        isqrt(n) * isqrt(n) <= n,
        n < (isqrt(n) + 1) * (isqrt(n) + 1),
    decreases n,
{
    if n == 0 {
        assert(isqrt(n) == 0);
        assert(n < (isqrt(n) + 1) * (isqrt(n) + 1)) by (nonlinear_arith)
            requires
                n == 0,
                isqrt(n) == 0,
        ;
    } else {
        lemma_isqrt_bracket((n - 1) as nat);
        let r = isqrt((n - 1) as nat);
        let s = isqrt(n);
        assert(s == if (r + 1) * (r + 1) <= n {
            (r + 1) as nat
        } else {
            r
        });
        if (r + 1) * (r + 1) <= n {
            assert(n == (r + 1) * (r + 1));
            assert(s * s <= n && n < (s + 1) * (s + 1)) by (nonlinear_arith)
                requires
                    n == (r + 1) * (r + 1),
                    s == r + 1,
                    r >= 0,
            ;
        } else {
            assert(s * s <= n && n < (s + 1) * (s + 1)) by (nonlinear_arith)
                requires
                    s == r,
                    r * r <= n - 1,
                    n < (r + 1) * (r + 1),
            ;
        }
    }
}

/// `sqrt_ceil(n)` is the smallest integer whose square is at least `n`.
pub proof fn lemma_sqrt_ceil_bracket(n: nat)
    ensures
        n <= sqrt_ceil(n) * sqrt_ceil(n),
        sqrt_ceil(n) > 0 ==> (sqrt_ceil(n) - 1) * (sqrt_ceil(n) - 1) < n,
        n > 0 ==> sqrt_ceil(n) > 0,
{
    lemma_isqrt_bracket(n);
    let r = isqrt(n);
    if r * r == n {
        if r > 0 {
            assert((r - 1) * (r - 1) < r * r) by (nonlinear_arith)
                requires
                    r >= 1,
            ;
        }
    }
}

/// The bracketing property determines the ceiling square root uniquely.
pub proof fn lemma_sqrt_ceil_unique(n: nat, r: nat)
    requires
        n <= r * r,
        r > 0 ==> (r - 1) * (r - 1) < n,
    ensures
        r == sqrt_ceil(n),
{
    lemma_sqrt_ceil_bracket(n);
    let s = sqrt_ceil(n);
    if r < s {
        assert(r * r <= (s - 1) * (s - 1)) by (nonlinear_arith)
            requires
                0 <= r <= s - 1,
        ;
        assert(false);
    } else if s < r {
        assert(s * s <= (r - 1) * (r - 1)) by (nonlinear_arith)
            requires
                0 <= s <= r - 1,
        ;
        assert(false);
    }
}

/// The ceiling square root of a perfect square is its root.
pub proof fn lemma_sqrt_ceil_of_square(a: nat)
    ensures
        sqrt_ceil(a * a) == a,
{
    if a > 0 {
        assert((a - 1) * (a - 1) < a * a) by (nonlinear_arith)
            requires
                a >= 1,
        ;
    }
    lemma_sqrt_ceil_unique(a * a, a);
}

/// The ceiling square root is at most `k` exactly when `n` is at most `k`
/// squared.
pub proof fn lemma_sqrt_ceil_le(n: nat, k: nat)
    ensures
        sqrt_ceil(n) <= k <==> n <= k * k,
{
    lemma_sqrt_ceil_bracket(n);
    let sc = sqrt_ceil(n);
    if n <= k * k && sc > k {
        assert(k * k <= (sc - 1) * (sc - 1)) by (nonlinear_arith)
            requires
                0 <= k <= sc - 1,
        ;
        assert(false);
    }
    if sc <= k && !(n <= k * k) {
        assert(sc * sc <= k * k) by (nonlinear_arith)
            requires
                0 <= sc <= k,
        ;
        assert(false);
    }
}

/// Smallest `r` with `r * r >= n`, computed by binary search.
pub fn ceil_sqrt(n: u64) -> (r: u64)
    requires
        n <= 8_000_000_000_000,
    ensures
        r == sqrt_ceil(n as nat),
        r <= 3_000_000,
{
    let mut lo: u64 = 0;
    let mut hi: u64 = 3_000_000;
    assert(3_000_000 * 3_000_000 >= n);
    while lo < hi
        invariant
            lo <= hi <= 3_000_000,
            n <= hi * hi,
            lo > 0 ==> (lo - 1) * (lo - 1) < n,
        decreases hi - lo,
    {
        let mid: u64 = lo + (hi - lo) / 2;
        assert(mid * mid <= 9_000_000_000_000) by (nonlinear_arith)
            requires
                0 <= mid <= 3_000_000,
        ;
        if mid * mid >= n {
            hi = mid;
        } else {
            lo = mid + 1;
        }
    }
    proof {
        lemma_sqrt_ceil_unique(n as nat, lo as nat);
    }
    lo
}

} // verus!
