//! Periodic geometry: the side of the square starting lattice.

use vstd::prelude::*;

verus! {

/// Side length of the sqrt(N) x sqrt(N) lattice, or None if N is not a
/// perfect square.
pub fn side(n: usize) -> (r: Option<usize>)
    ensures
        match r {
            Some(s) => s * s == n,
            None => forall|s: int| 0 <= s ==> #[trigger] (s * s) != n,
        },
{
    // Largest s with s * s <= n, by bisection on [lo, hi].
    let mut lo: usize = 0;
    let mut hi: usize = n;
    proof {
        assert((n + 1) * (n + 1) > n) by (nonlinear_arith);
    }
    while lo < hi
        invariant
            lo <= hi <= n,
            lo * lo <= n,
            (hi + 1) * (hi + 1) > n,
        decreases hi - lo,
    {
        let d = hi - lo;
        let mid = lo + d / 2 + d % 2;
        assert(lo < mid <= hi);
        if mid <= n / mid {
            proof {
                vstd::arithmetic::div_mod::lemma_fundamental_div_mod(n as int, mid as int);
                assert(mid * mid <= n) by (nonlinear_arith)
                    requires
                        mid <= n / mid,
                        0 < mid,
                        n == mid * (n / mid) + n % mid,
                        0 <= n % mid,
                ;
            }
            lo = mid;
        } else {
            proof {
                vstd::arithmetic::div_mod::lemma_fundamental_div_mod(n as int, mid as int);
                assert(mid * mid > n) by (nonlinear_arith)
                    requires
                        mid > n / mid,
                        0 < mid,
                        n == mid * (n / mid) + n % mid,
                        n % mid < mid,
                ;
            }
            hi = mid - 1;
        }
    }
    if lo * lo == n {
        Some(lo)
    } else {
        proof {
            assert forall|s: int| 0 <= s implies #[trigger] (s * s) != n by {
                if s <= lo {
                    assert(s * s <= lo * lo) by (nonlinear_arith)
                        requires
                            0 <= s <= lo,
                    ;
                } else {
                    assert(s * s >= (lo + 1) * (lo + 1)) by (nonlinear_arith)
                        requires
                            s >= lo + 1,
                            lo >= 0,
                    ;
                }
            }
        }
        None
    }
}

} // verus!
