use vstd::prelude::*;
use vstd::arithmetic::div_mod::{lemma_div_is_ordered, lemma_div_multiples_vanish, lemma_div_pos_is_pos};

use crate::fixed::SCALE;

verus! {

/// `x` raised to the `k`-th power in fixed point: starting from 1.0, each
/// factor multiplies by `x` and rounds down to a whole unit.
pub open spec fn fp_pow(x: int, k: nat) -> int
    decreases k,
{
    if k == 0 {
        SCALE as int
    } else {
        fp_pow(x, (k - 1) as nat) * x / (SCALE as int)
    }
}

/// One fixed-point multiplication by a factor at least 1.0 does not shrink a
/// value, and by a factor at most 1.0 does not grow it.
pub proof fn lemma_step_bounds(h: int, x: int)
    requires
        h >= 0,
        x >= 0,
    ensures
        h * x / (SCALE as int) >= 0,
        x >= SCALE ==> h * x / (SCALE as int) >= h,
        x <= SCALE ==> h * x / (SCALE as int) <= h,
{
    let s = SCALE as int;
    assert(h * x >= 0) by (nonlinear_arith)
        requires
            h >= 0,
            x >= 0,
    ;
    lemma_div_pos_is_pos(h * x, s);
    lemma_div_multiples_vanish(h, s);
    assert(s * h == h * s) by (nonlinear_arith);
    if x >= s {
        assert(h * s <= h * x) by (nonlinear_arith)
            requires
                h >= 0,
                x >= s,
        ;
        lemma_div_is_ordered(h * s, h * x, s);
    }
    if x <= s {
        assert(h * x <= h * s) by (nonlinear_arith)
            requires
                h >= 0,
                x <= s,
        ;
        lemma_div_is_ordered(h * x, h * s, s);
    }
}

/// Powers of a non-negative base are non-negative, and the first power is the base.
pub proof fn lemma_pow_nonneg(x: int, k: nat)
    requires
        x >= 0,
    ensures
        fp_pow(x, k) >= 0,
        fp_pow(x, 1) == x,
    decreases k,
{
    let s = SCALE as int;
    lemma_div_multiples_vanish(x, s);
    assert(fp_pow(x, 0) * x == s * x);
    if k > 0 {
        lemma_pow_nonneg(x, (k - 1) as nat);
        lemma_step_bounds(fp_pow(x, (k - 1) as nat), x);
    }
}

/// Powers are monotone in the base.
pub proof fn lemma_pow_mono_base(x: int, y: int, k: nat)
    requires
        0 <= x <= y,
    ensures
        fp_pow(x, k) <= fp_pow(y, k),
    decreases k,
{
    if k > 0 {
        let a = fp_pow(x, (k - 1) as nat);
        let b = fp_pow(y, (k - 1) as nat);
        lemma_pow_mono_base(x, y, (k - 1) as nat);
        lemma_pow_nonneg(x, (k - 1) as nat);
        assert(a * x <= b * y) by (nonlinear_arith)
            requires
                0 <= a <= b,
                0 <= x <= y,
        ;
        lemma_div_is_ordered(a * x, b * y, SCALE as int);
    }
}

/// For a base of at least 1.0, powers do not decrease with the exponent.
pub proof fn lemma_pow_grows(x: int, j: nat, k: nat)
    requires
        x >= SCALE,
        j <= k,
    ensures
        fp_pow(x, j) <= fp_pow(x, k),
    decreases k,
{
    if j < k {
        lemma_pow_grows(x, j, (k - 1) as nat);
        lemma_pow_nonneg(x, (k - 1) as nat);
        lemma_step_bounds(fp_pow(x, (k - 1) as nat), x);
    }
}

/// For a base of at most 1.0, powers do not increase with the exponent.
pub proof fn lemma_pow_shrinks(x: int, j: nat, k: nat)
    requires
        0 <= x <= SCALE,
        j <= k,
    ensures
        fp_pow(x, k) <= fp_pow(x, j),
    decreases k,
{
    if j < k {
        lemma_pow_shrinks(x, j, (k - 1) as nat);
        lemma_pow_nonneg(x, (k - 1) as nat);
        lemma_step_bounds(fp_pow(x, (k - 1) as nat), x);
    }
}

/// Every power of 1.0 is 1.0.
pub proof fn lemma_pow_one(k: nat)
    ensures
        fp_pow(SCALE as int, k) == SCALE,
{
    lemma_pow_grows(SCALE as int, 0, k);
    lemma_pow_shrinks(SCALE as int, 0, k);
}

/// `g` is the monthly growth factor of a yearly growth factor `target`: the
/// largest fixed-point value whose twelfth power does not exceed `target`.
pub open spec fn is_monthly_factor(target: int, g: int) -> bool {
    0 <= g && fp_pow(g, 12) <= target < fp_pow(g + 1, 12)
}

/// The monthly growth factor that compounds to `1 + annual_return` over a year.
pub open spec fn monthly_factor(annual_return: int) -> int {
    choose|g: int| #[trigger] is_monthly_factor(SCALE + annual_return, g)
}

/// At most one value is the monthly growth factor of a given yearly factor.
pub proof fn lemma_monthly_factor_unique(target: int, g1: int, g2: int)
    requires
        is_monthly_factor(target, g1),
        is_monthly_factor(target, g2),
    ensures
        g1 == g2,
{
    if g1 < g2 {
        lemma_pow_mono_base(g1 + 1, g2, 12);
    }
    if g2 < g1 {
        lemma_pow_mono_base(g2 + 1, g1, 12);
    }
}

/// Between a value whose twelfth power is within `target` and one whose
/// twelfth power exceeds it lies a monthly growth factor.
proof fn lemma_crossing(target: int, lo: int, hi: int)
    requires
        0 <= lo < hi,
        fp_pow(lo, 12) <= target < fp_pow(hi, 12),
    ensures
        exists|g: int| #[trigger] is_monthly_factor(target, g),
    decreases hi - lo,
{
    if hi == lo + 1 {
        assert(is_monthly_factor(target, lo));
    } else {
        let mid = lo + (hi - lo) / 2;
        if fp_pow(mid, 12) <= target {
            lemma_crossing(target, mid, hi);
        } else {
            lemma_crossing(target, lo, mid);
        }
    }
}

/// Every return above -100% has a monthly growth factor, and it is not negative.
pub proof fn lemma_monthly_factor_exists(annual_return: int)
    requires
        annual_return > -(SCALE as int),
    ensures
        is_monthly_factor(SCALE + annual_return, monthly_factor(annual_return)),
        monthly_factor(annual_return) >= 0,
{
    let target = SCALE + annual_return;
    let hi = if target > SCALE { target + 1 } else { SCALE + 1 };
    lemma_pow_shrinks(0, 1, 12);
    lemma_pow_nonneg(0, 12);
    lemma_pow_nonneg(hi, 12);
    lemma_pow_grows(hi, 1, 12);
    lemma_crossing(target, 0, hi);
}

/// Whether the twelfth fixed-point power of `x` exceeds `target`.
fn pow12_exceeds(x: u64, target: u64) -> (r: bool)
    ensures
        r == (fp_pow(x as int, 12) > target),
{
    let mut h: u128 = SCALE as u128;
    let mut i: usize = 0;
    while i < 12
        invariant
            0 <= i <= 12,
            h == fp_pow(x as int, i as nat),
        decreases 12 - i,
    {
        proof {
            lemma_pow_nonneg(x as int, i as nat);
            if x < SCALE {
                lemma_pow_shrinks(x as int, 0, i as nat);
            }
        }
        if x >= SCALE && h > target as u128 {
            proof {
                lemma_pow_grows(x as int, i as nat, 12);
            }
            return true;
        }
        assert(h * x <= 0xffff_ffff_ffff_ffff * 0xffff_ffff_ffff_ffff) by (nonlinear_arith)
            requires
                0 <= h <= 0xffff_ffff_ffff_ffff,
                0 <= x <= 0xffff_ffff_ffff_ffff,
        ;
        h = h * (x as u128) / (SCALE as u128);
        i = i + 1;
    }
    h > target as u128
}

/// The monthly growth factor for `annual_return` (both in fixed point), found
/// by bisection.
pub fn monthly_growth_factor(annual_return: i64) -> (g: u64)
    requires
        annual_return > -(SCALE as int),
    ensures
        is_monthly_factor(SCALE + annual_return, g as int),
        g == monthly_factor(annual_return as int),
        g <= SCALE + (if annual_return > 0 { annual_return as int } else { 0 }),
{
    let target: u64 = (SCALE as i128 + annual_return as i128) as u64;
    let mut lo: u64 = 0;
    let mut hi: u64 = if target > SCALE {
        target + 1
    } else {
        SCALE + 1
    };
    proof {
        lemma_pow_shrinks(0, 1, 12);
        lemma_pow_nonneg(0, 12);
        lemma_pow_nonneg(hi as int, 12);
        lemma_pow_grows(hi as int, 1, 12);
    }
    while hi - lo > 1
        invariant
            lo < hi,
            target == SCALE + annual_return,
            hi <= if target > SCALE { target + 1 } else { SCALE + 1 },
            fp_pow(lo as int, 12) <= target < fp_pow(hi as int, 12),
        decreases hi - lo,
    {
        let mid: u64 = lo + (hi - lo) / 2;
        if pow12_exceeds(mid, target) {
            hi = mid;
        } else {
            lo = mid;
        }
    }
    proof {
        let t = SCALE + annual_return;
        assert(is_monthly_factor(t, lo as int));
        lemma_monthly_factor_unique(t, lo as int, monthly_factor(annual_return as int));
    }
    lo
}

} // verus!
