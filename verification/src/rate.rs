use vstd::prelude::*;

verus! {

/// A nonnegative rational rate `num / den`, such as the arrival rate of jobs.
#[derive(Clone, Copy, Debug)]
pub struct Rate {
    pub num: u64,
    pub den: u64,
}

impl Rate {
    /// A rate is well formed when its denominator is positive.
    pub open spec fn wf(self) -> bool {
        self.den > 0
    }
}

/// The bucket count for an arrival rate `l = num / den`: the ceiling of
/// `(l + 2) / (2 - l)`, taken as `usize` (0 below zero, `usize::MAX` for an
/// infinite or too large value), then made odd by adding one when it is even.
pub open spec fn lambda_to_k_spec(rate: Rate) -> int {
    let a = rate.num + 2 * rate.den;
    let d = 2 * rate.den - rate.num;
    let base = if d > 0 {
        let c = (a + d - 1) / d;
        if c > usize::MAX {
            usize::MAX as int
        } else {
            c
        }
    } else if d == 0 {
        usize::MAX as int
    } else {
        0
    };
    if base % 2 == 0 {
        base + 1
    } else {
        base
    }
}

/// The number of buckets that bucket pairing uses at arrival rate `lambda`.
/// The result is always odd, as bucket pairing needs.
pub fn lambda_to_k(lambda: Rate) -> (k: usize)
    requires
        lambda.wf(),
    ensures
        k == lambda_to_k_spec(lambda),
        k % 2 == 1,
{
    assert(usize::MAX % 2 == 1) by {
        assert(usize::MAX as int == 0xFFFF_FFFFint || usize::MAX as int == 0xFFFF_FFFF_FFFF_FFFFint);
    }
    let num = lambda.num as u128;
    let den = lambda.den as u128;
    let a = num + 2 * den;
    let max = usize::MAX as u128;
    let attempt_k: usize = if 2 * den > num {
        let d = 2 * den - num;
        let c = (a + d - 1) / d;
        if c > max {
            usize::MAX
        } else {
            c as usize
        }
    } else if 2 * den == num {
        usize::MAX
    } else {
        0
    };
    if attempt_k % 2 == 0 {
        attempt_k + 1
    } else {
        attempt_k
    }
}

/// Law: below rate 2 the bucket count is the smallest odd number at least
/// `(l + 2) / (2 - l)` (unless that would not fit in `usize`); at rate 2 it
/// is `usize::MAX`; above rate 2 it is 1. It is always odd.
pub proof fn lemma_lambda_to_k_smallest_odd(rate: Rate)
    requires
        rate.wf(),
    ensures
        ({
            let a = rate.num + 2 * rate.den;
            let d = 2 * rate.den - rate.num;
            let k = lambda_to_k_spec(rate);
            &&& k % 2 == 1
            &&& k >= 1
            &&& d < 0 ==> k == 1
            &&& d == 0 ==> k == usize::MAX
            &&& d > 0 && k < usize::MAX ==> k * d >= a && (k - 2) * d < a
        }),
{
    assert(usize::MAX % 2 == 1) by {
        assert(usize::MAX as int == 0xFFFF_FFFFint || usize::MAX as int == 0xFFFF_FFFF_FFFF_FFFFint);
    }
    let a = rate.num + 2 * rate.den;
    let d = 2 * rate.den - rate.num;
    if d > 0 {
        let x = a + d - 1;
        let c = x / d;
        vstd::arithmetic::div_mod::lemma_fundamental_div_mod(x, d);
        vstd::arithmetic::div_mod::lemma_mod_pos_bound(x, d);
        let r = x % d;
        assert(c * d >= a && (c - 1) * d < a) by (nonlinear_arith)
            requires x == d * c + r, 0 <= r < d, x == a + d - 1, d > 0;
        assert(c >= 1) by (nonlinear_arith)
            requires c * d >= a, a >= d, d > 0;
        let k = lambda_to_k_spec(rate);
        if k < usize::MAX {
            assert(c <= usize::MAX);
            assert(k == c || k == c + 1);
            assert(k * d >= c * d) by (nonlinear_arith)
                requires k >= c, d > 0;
            assert((k - 2) * d <= (c - 1) * d) by (nonlinear_arith)
                requires k - 2 <= c - 1, d > 0;
        }
    }
}

} // verus!
