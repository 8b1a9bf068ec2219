//! The heuristic scorer: the Euclidean distance between two coordinates,
//! truncated to an integer, plus one.
//!
//! The added constant keeps every frontier priority strictly positive, even
//! for the goal itself. Because it is added at every evaluation rather than
//! once, the estimate overshoots the true remaining cost by one per
//! evaluation, so the search may settle on one of several near-equal paths;
//! the formula is kept exactly as stated here.

use vstd::prelude::*;

verus! {

/// The distance between two coordinates along one axis.
pub open spec fn axis_gap(a: u64, b: u64) -> int {
    if a >= b {
        a - b
    } else {
        b - a
    }
}

/// The integer square root: the largest `r` with `r * r <= n`.
pub open spec fn isqrt(n: nat) -> nat
    decreases n,
{
    if n == 0 {
        0
    } else {
        let r = isqrt((n - 1) as nat);
        if (r + 1) * (r + 1) <= n {
            r + 1
        } else {
            r
        }
    }
}

/// What `score` returns: the truncated Euclidean distance plus one.
pub open spec fn score_spec(a: (u64, u64), b: (u64, u64)) -> int {
    let dx = axis_gap(a.0, b.0);
    let dy = axis_gap(a.1, b.1);
    isqrt((dx * dx + dy * dy) as nat) + 1int
}

/// `isqrt(n)` squares to at most `n`, and is the largest such number.
pub proof fn lemma_isqrt_bounds(n: nat)
    ensures
        isqrt(n) * isqrt(n) <= n,
        n < (isqrt(n) + 1) * (isqrt(n) + 1),
    decreases n,
{
    if n == 0 {
        assert(isqrt(0) == 0);
        assert(isqrt(n) * isqrt(n) <= n);
        assert(n < (isqrt(n) + 1) * (isqrt(n) + 1)) by (nonlinear_arith)
            requires n == 0 && isqrt(n) == 0,
        ;
    } else {
        lemma_isqrt_bounds((n - 1) as nat);
        let r = isqrt((n - 1) as nat);
        assert(r * r <= n - 1);
        assert(n - 1 < (r + 1) * (r + 1));
        assert(isqrt(n) == if (r + 1) * (r + 1) <= n {
            r + 1
        } else {
            r
        });
        if (r + 1) * (r + 1) <= n {
            assert(isqrt(n) == r + 1);
            assert(isqrt(n) * isqrt(n) <= n);
            assert(n == (r + 1) * (r + 1));
            assert((r + 2) * (r + 2) > (r + 1) * (r + 1)) by (nonlinear_arith)
                requires r >= 0,
            ;
            assert(n < (isqrt(n) + 1) * (isqrt(n) + 1));
        } else {
            assert(isqrt(n) == r);
            assert(isqrt(n) * isqrt(n) <= n);
            assert(n < (isqrt(n) + 1) * (isqrt(n) + 1));
        }
    }
}

/// Any `r` with `r * r <= n < (r + 1) * (r + 1)` is `isqrt(n)`.
pub proof fn lemma_isqrt_unique(n: nat, r: nat)
    requires
        r * r <= n,
        n < (r + 1) * (r + 1),
    ensures
        r == isqrt(n),
{
    lemma_isqrt_bounds(n);
    let s = isqrt(n);
    if r < s {
        assert((r + 1) * (r + 1) <= s * s) by (nonlinear_arith)
            requires r + 1 <= s,
        ;
    }
    if s < r {
        assert((s + 1) * (s + 1) <= r * r) by (nonlinear_arith)
            requires s + 1 <= r,
        ;
    }
}

/// The integer square root of a machine word, by binary search on the answer.
fn int_sqrt(n: u64) -> (r: u64)
    ensures
        r == isqrt(n as nat),
{
    let mut lo: u64 = 0;
    let mut hi: u64 = 0x1_0000_0000;
    proof {
        assert((0x1_0000_0000 as int) * (0x1_0000_0000 as int) > n as int) by (nonlinear_arith)
            requires n <= u64::MAX,
        ;
    }
    while hi - lo > 1
        invariant
            lo < hi <= 0x1_0000_0000,
            (lo as int) * (lo as int) <= n as int,
            (n as int) < (hi as int) * (hi as int),
        decreases hi - lo,
    {
        let mid = lo + (hi - lo) / 2;
        proof {
            assert((mid as int) * (mid as int) <= 0x1_0000_0000 * 0x1_0000_0000)
                by (nonlinear_arith)
                requires mid <= 0x1_0000_0000,
            ;
        }
        if (mid as u128) * (mid as u128) <= n as u128 {
            lo = mid;
        } else {
            hi = mid;
        }
    }
    proof {
        assert(hi == lo + 1);
        lemma_isqrt_unique(n as nat, lo as nat);
    }
    lo
}

/// Estimates the remaining cost from coordinate `a` to coordinate `b`: the
/// Euclidean distance between them, truncated to an integer, plus one.
pub fn score(a: (u64, u64), b: (u64, u64)) -> (r: u64)
    requires
        axis_gap(a.0, b.0) * axis_gap(a.0, b.0) + axis_gap(a.1, b.1) * axis_gap(a.1, b.1)
            <= u64::MAX,
    ensures
        r == score_spec(a, b),
        r <= 0x1_0000_0000,
{
    let dx: u64 = if a.0 >= b.0 {
        a.0 - b.0
    } else {
        b.0 - a.0
    };
    let dy: u64 = if a.1 >= b.1 {
        a.1 - b.1
    } else {
        b.1 - a.1
    };
    proof {
        assert(dx * dx >= 0 && dy * dy >= 0) by (nonlinear_arith);
    }
    let n: u64 = dx * dx + dy * dy;
    let root = int_sqrt(n);
    proof {
        lemma_isqrt_bounds(n as nat);
        assert(isqrt(n as nat) < 0x1_0000_0000) by {
            if isqrt(n as nat) >= 0x1_0000_0000 {
                assert(isqrt(n as nat) * isqrt(n as nat) >= 0x1_0000_0000 * 0x1_0000_0000)
                    by (nonlinear_arith)
                    requires isqrt(n as nat) >= 0x1_0000_0000,
                ;
            }
        }
    }
    root + 1
}

/// The score of a coordinate against itself is exactly one: the distance term
/// vanishes and only the constant offset remains.
pub proof fn lemma_score_self(p: (u64, u64))
    ensures
        score_spec(p, p) == 1,
{
    assert(axis_gap(p.0, p.0) == 0);
    assert(isqrt(0) == 0);
}

} // verus!
