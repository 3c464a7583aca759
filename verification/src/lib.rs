use vstd::prelude::*;

pub mod job;
pub mod policy;
pub mod sort;
pub mod selection;
pub mod buckets;
pub mod rate;
pub mod schedule;
pub mod simulation;

verus! {

/// Fixed-point scale: one unit of work, of time, or of one server's resource.
pub const UNIT: u64 = 1_000_000_000;

/// Smallest amount of time or resource that counts as nonzero.
pub const EPSILON: u64 = 10;

/// Integer square root, rounded down.
pub fn isqrt(n: u64) -> (r: u64)
    ensures
        r * r <= n,
        n < (r + 1) * (r + 1),
{
    let mut lo: u64 = 0;
    let mut hi: u64 = 0x1_0000_0000;
    assert(hi * hi > n) by (nonlinear_arith)
        requires hi == 0x1_0000_0000u64, n <= u64::MAX;
    while lo + 1 < hi
        invariant
            lo < hi <= 0x1_0000_0000,
            lo * lo <= n,
            n < hi * hi,
        decreases hi - lo,
    {
        let mid = lo + (hi - lo) / 2;
        assert(mid * mid <= 0xFFFF_FFFF * 0xFFFF_FFFFu64) by (nonlinear_arith)
            requires mid < 0x1_0000_0000u64;
        if mid * mid <= n {
            lo = mid;
        } else {
            hi = mid;
        }
    }
    lo
}

} // verus!
