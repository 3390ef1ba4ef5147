use vstd::prelude::*;
use vstd::arithmetic::div_mod::{
    lemma_div_is_ordered, lemma_div_is_ordered_by_denominator, lemma_div_multiples_vanish,
    lemma_div_pos_is_pos, lemma_fundamental_div_mod, lemma_mod_bound,
};

use crate::fixed::{ForecastError, SCALE};
use crate::power::{
    fp_pow, is_monthly_factor, lemma_monthly_factor_exists, lemma_monthly_factor_unique,
    lemma_pow_grows, lemma_pow_nonneg, lemma_pow_one, lemma_pow_shrinks, monthly_factor,
    monthly_growth_factor,
};

verus! {

/// Removes one year of inflation at `rate` from an amount, rounding down.
pub open spec fn deflate_step(v: int, rate: int) -> int {
    v * SCALE / (SCALE + rate)
}

/// The present value of a nominal `goal` due after the years of `rates`:
/// the latest year's rate is divided out first, then the one before it,
/// down to year 0.
pub open spec fn present_value_of(goal: int, rates: Seq<u64>) -> int
    decreases rates.len(),
{
    if rates.len() == 0 {
        goal
    } else {
        present_value_of(deflate_step(goal, rates.last() as int), rates.drop_last())
    }
}

/// The level monthly payment of an ordinary annuity that accumulates to `pv`
/// over `months` months at the monthly growth factor `g`. With a factor of
/// exactly 1.0 the payments are equal shares of `pv`.
pub open spec fn annuity_payment(pv: int, g: int, months: nat) -> int {
    if g == SCALE {
        pv / (months as int)
    } else if g > SCALE {
        pv * (g - SCALE) / (fp_pow(g, months) - SCALE)
    } else {
        pv * (SCALE - g) / (SCALE - fp_pow(g, months))
    }
}

/// Each of the first `n` fixed-point multiplications by `g` fits in a `u128`.
pub open spec fn pow_fits(g: int, n: nat) -> bool {
    forall|k: nat| k < n ==> #[trigger] fp_pow(g, k) * g <= u128::MAX
}

/// The inputs on which a savings rate is defined: a positive goal, at least
/// one year, one inflation rate per year and a return above -100%.
pub open spec fn valid_savings_inputs(goal: int, years: int, path_len: int, annual_return: int) -> bool {
    &&& goal > 0
    &&& years >= 1
    &&& path_len == years
    &&& annual_return > -(SCALE as int)
}

/// The monthly contribution that reaches `goal` after `years` years of the
/// inflation `rates`, at `annual_return`.
pub open spec fn savings_rate(goal: int, years: nat, rates: Seq<u64>, annual_return: int) -> int {
    annuity_payment(present_value_of(goal, rates), monthly_factor(annual_return), 12 * years)
}

/// A deflation step keeps a non-negative amount non-negative and does not grow it.
pub proof fn lemma_deflate_step_bounds(v: int, rate: int)
    requires
        v >= 0,
        rate >= 0,
    ensures
        0 <= deflate_step(v, rate) <= v,
{
    let s = SCALE as int;
    assert(v * s >= 0) by (nonlinear_arith)
        requires
            v >= 0,
            s >= 0,
    ;
    lemma_div_pos_is_pos(v * s, s + rate);
    lemma_div_is_ordered_by_denominator(v * s, s, s + rate);
    lemma_div_multiples_vanish(v, s);
    assert(s * v == v * s) by (nonlinear_arith);
}

/// The present value of a non-negative goal lies between zero and the goal.
pub proof fn lemma_present_value_bounds(goal: int, rates: Seq<u64>)
    requires
        goal >= 0,
    ensures
        0 <= present_value_of(goal, rates) <= goal,
    decreases rates.len(),
{
    if rates.len() > 0 {
        lemma_deflate_step_bounds(goal, rates.last() as int);
        lemma_present_value_bounds(deflate_step(goal, rates.last() as int), rates.drop_last());
    }
}

/// Deflates `goal` to present value through the inflation `rates`, taking
/// the latest year first.
pub fn present_value(goal: u64, rates: &[u64]) -> (r: u64)
    ensures
        r == present_value_of(goal as int, rates@),
{
    let mut v: u64 = goal;
    let mut i: usize = rates.len();
    assert(rates@.subrange(0, i as int) =~= rates@);
    while i > 0
        invariant
            i <= rates@.len(),
            present_value_of(goal as int, rates@) == present_value_of(v as int, rates@.subrange(0, i as int)),
        decreases i,
    {
        let rate: u64 = rates[i - 1];
        let ghost pre = rates@.subrange(0, i as int);
        assert(pre.drop_last() =~= rates@.subrange(0, i - 1));
        assert(v * SCALE <= 0xffff_ffff_ffff_ffff * SCALE) by (nonlinear_arith)
            requires
                v <= 0xffff_ffff_ffff_ffff,
        ;
        proof {
            lemma_deflate_step_bounds(v as int, rate as int);
        }
        v = ((v as u128) * (SCALE as u128) / (SCALE as u128 + rate as u128)) as u64;
        i = i - 1;
    }
    v
}

/// The fixed-point power `g^months`, or `None` exactly when one of its
/// multiplications does not fit in a `u128`.
fn growth_over(g: u64, months: u128) -> (r: Option<u128>)
    ensures
        match r {
            Some(h) => h == fp_pow(g as int, months as nat) && pow_fits(g as int, months as nat),
            None => !pow_fits(g as int, months as nat),
        },
{
    let mut h: u128 = SCALE as u128;
    let mut i: u128 = 0;
    while i < months
        invariant
            i <= months,
            h == fp_pow(g as int, i as nat),
            pow_fits(g as int, i as nat),
        decreases months - i,
    {
        match h.checked_mul(g as u128) {
            Some(p) => {
                assert(pow_fits(g as int, (i + 1) as nat)) by {
                    assert forall|k: nat| k < i + 1 implies #[trigger] fp_pow(g as int, k) * g <= u128::MAX by {
                        if k < i {
                            assert(pow_fits(g as int, i as nat));
                        }
                    }
                }
                h = p / (SCALE as u128);
                i = i + 1;
            },
            None => {
                assert(fp_pow(g as int, i as nat) * g > u128::MAX);
                return None;
            },
        }
    }
    Some(h)
}

/// `a * b / c` does not exceed `a` when `b <= c`.
proof fn lemma_scaled_share(a: int, b: int, c: int)
    requires
        a >= 0,
        0 <= b <= c,
        c > 0,
    ensures
        0 <= a * b / c <= a,
{
    assert(0 <= a * b <= a * c) by (nonlinear_arith)
        requires
            a >= 0,
            0 <= b <= c,
    ;
    lemma_div_pos_is_pos(a * b, c);
    lemma_div_is_ordered(a * b, a * c, c);
    lemma_div_multiples_vanish(a, c);
    assert(c * a == a * c) by (nonlinear_arith);
}

/// The annuity payment for a present value `pv`, given the power `growth`
/// of the monthly factor `g` over `months` months.
fn annuity(pv: u64, g: u64, growth: u128, months: u128) -> (r: u64)
    requires
        months >= 1,
        g <= SCALE + 0x7fff_ffff_ffff_ffff,
        growth == fp_pow(g as int, months as nat),
    ensures
        r == annuity_payment(pv as int, g as int, months as nat),
        r <= pv,
{
    let s: u128 = SCALE as u128;
    proof {
        lemma_pow_nonneg(g as int, months as nat);
    }
    if g as u128 == s {
        proof {
            lemma_div_is_ordered_by_denominator(pv as int, 1, months as int);
        }
        (pv as u128 / months) as u64
    } else if g as u128 > s {
        proof {
            lemma_pow_grows(g as int, 1, months as nat);
            lemma_scaled_share(pv as int, g - SCALE, growth - SCALE);
        }
        assert((pv as int) * (g - SCALE) <= 0xffff_ffff_ffff_ffff * 0x8000_0000_0000_0000) by (nonlinear_arith)
            requires
                0 <= pv <= 0xffff_ffff_ffff_ffff,
                0 <= g - SCALE <= 0x8000_0000_0000_0000,
        ;
        ((pv as u128) * (g as u128 - s) / (growth - s)) as u64
    } else {
        proof {
            lemma_pow_shrinks(g as int, 1, months as nat);
            lemma_scaled_share(pv as int, SCALE - g, SCALE - growth);
        }
        assert((pv as int) * (SCALE - g) <= 0xffff_ffff_ffff_ffff * SCALE) by (nonlinear_arith)
            requires
                0 <= pv <= 0xffff_ffff_ffff_ffff,
                0 <= SCALE - g <= SCALE,
        ;
        ((pv as u128) * (s - g as u128) / (s - growth)) as u64
    }
}

/// With a zero return the monthly factor is exactly 1.0, no multiplication
/// overflows, and the contribution is the present value of the goal split
/// into `12 * years` equal installments.
pub proof fn lemma_zero_return_installments(goal: int, years: nat, rates: Seq<u64>)
    requires
        valid_savings_inputs(goal, years as int, rates.len() as int, 0),
    ensures
        monthly_factor(0) == SCALE,
        pow_fits(monthly_factor(0), 12 * years),
        savings_rate(goal, years, rates, 0) == present_value_of(goal, rates) / (12 * years as int),
{
    let s = SCALE as int;
    lemma_pow_one(12);
    lemma_pow_nonneg(s + 1, 12);
    lemma_pow_grows(s + 1, 1, 12);
    assert(is_monthly_factor(s, s));
    lemma_monthly_factor_exists(0);
    lemma_monthly_factor_unique(s, s, monthly_factor(0));
    assert forall|k: nat| k < 12 * years implies #[trigger] fp_pow(s, k) * s <= u128::MAX by {
        lemma_pow_one(k);
    }
}

/// Rounding down loses nothing when two amounts are added first:
/// `y * c / d + z * c / d <= x * c / d` whenever `y + z <= x`.
proof fn lemma_floor_superadditive(x: int, y: int, z: int, c: int, d: int)
    requires
        y >= 0,
        z >= 0,
        y + z <= x,
        c >= 0,
        d > 0,
    ensures
        y * c / d + z * c / d <= x * c / d,
{
    let a = y * c;
    let b = z * c;
    lemma_fundamental_div_mod(a, d);
    lemma_fundamental_div_mod(b, d);
    lemma_mod_bound(a, d);
    lemma_mod_bound(b, d);
    let q = a / d + b / d;
    assert(d * q <= a + b) by (nonlinear_arith)
        requires
            a == d * (a / d) + a % d,
            b == d * (b / d) + b % d,
            a % d >= 0,
            b % d >= 0,
            q == a / d + b / d,
    ;
    assert(a + b <= x * c) by (nonlinear_arith)
        requires
            a == y * c,
            b == z * c,
            y + z <= x,
            c >= 0,
    ;
    lemma_div_is_ordered(d * q, x * c, d);
    lemma_div_multiples_vanish(q, d);
}

/// Deflating the sum of two goals gives at least the sum of their present values.
proof fn lemma_present_value_superadditive(x: int, y: int, z: int, rates: Seq<u64>)
    requires
        y >= 0,
        z >= 0,
        y + z <= x,
    ensures
        present_value_of(y, rates) + present_value_of(z, rates) <= present_value_of(x, rates),
    decreases rates.len(),
{
    if rates.len() > 0 {
        let r = rates.last() as int;
        let s = SCALE as int;
        lemma_floor_superadditive(x, y, z, s, s + r);
        lemma_deflate_step_bounds(y, r);
        lemma_deflate_step_bounds(z, r);
        lemma_present_value_superadditive(
            deflate_step(x, r),
            deflate_step(y, r),
            deflate_step(z, r),
            rates.drop_last(),
        );
    }
}

/// Saving for two goals at once asks at least as much per month as saving for
/// each alone; in particular doubling the goal at least doubles the
/// contribution.
pub proof fn lemma_savings_superadditive(a: int, b: int, years: nat, rates: Seq<u64>, annual_return: int)
    requires
        valid_savings_inputs(a, years as int, rates.len() as int, annual_return),
        valid_savings_inputs(b, years as int, rates.len() as int, annual_return),
    ensures
        savings_rate(a, years, rates, annual_return) + savings_rate(b, years, rates, annual_return)
            <= savings_rate(a + b, years, rates, annual_return),
        2 * savings_rate(a, years, rates, annual_return) <= savings_rate(2 * a, years, rates, annual_return),
{
    let s = SCALE as int;
    let n = 12 * years;
    let g = monthly_factor(annual_return);
    lemma_monthly_factor_exists(annual_return);
    lemma_present_value_superadditive(a + b, a, b, rates);
    lemma_present_value_superadditive(2 * a, a, a, rates);
    lemma_present_value_bounds(a, rates);
    lemma_present_value_bounds(b, rates);
    let pa = present_value_of(a, rates);
    let pb = present_value_of(b, rates);
    let pab = present_value_of(a + b, rates);
    let p2a = present_value_of(2 * a, rates);
    lemma_pow_nonneg(g, n);
    if g == s {
        lemma_floor_superadditive(pab, pa, pb, 1, n as int);
        lemma_floor_superadditive(p2a, pa, pa, 1, n as int);
    } else if g > s {
        lemma_pow_grows(g, 1, n);
        lemma_floor_superadditive(pab, pa, pb, g - s, fp_pow(g, n) - s);
        lemma_floor_superadditive(p2a, pa, pa, g - s, fp_pow(g, n) - s);
    } else {
        lemma_pow_shrinks(g, 1, n);
        lemma_floor_superadditive(pab, pa, pb, s - g, s - fp_pow(g, n));
        lemma_floor_superadditive(p2a, pa, pa, s - g, s - fp_pow(g, n));
    }
}

/// The monthly contribution needed to reach the nominal `goal` after `years`
/// years, given one inflation rate per year and the `annual_return` earned
/// on the savings (rates and return in fixed point).
///
/// The goal is first deflated to present value through the inflation path,
/// latest year first; the level payment of an ordinary annuity over
/// `12 * years` months at the compounded monthly return then reaches it.
/// `InvalidParameter` is returned exactly when the inputs are outside
/// `valid_savings_inputs`, and `Overflow` exactly when the growth over the
/// whole horizon exceeds `u128` arithmetic.
pub fn solve(goal: u64, years: usize, inflation_path: &[u64], annual_return: i64) -> (r: Result<
    u64,
    ForecastError,
>)
    ensures
        r == Err::<u64, ForecastError>(ForecastError::InvalidParameter) <==> !valid_savings_inputs(
            goal as int,
            years as int,
            inflation_path@.len() as int,
            annual_return as int,
        ),
        r == Err::<u64, ForecastError>(ForecastError::Overflow) <==> (valid_savings_inputs(
            goal as int,
            years as int,
            inflation_path@.len() as int,
            annual_return as int,
        ) && !pow_fits(monthly_factor(annual_return as int), 12 * years as nat)),
        r is Ok <==> (valid_savings_inputs(
            goal as int,
            years as int,
            inflation_path@.len() as int,
            annual_return as int,
        ) && pow_fits(monthly_factor(annual_return as int), 12 * years as nat)),
        match r {
            Ok(p) => p == savings_rate(goal as int, years as nat, inflation_path@, annual_return as int),
            Err(_) => true,
        },
{
    if goal == 0 || years == 0 || inflation_path.len() != years || annual_return <= -(SCALE as i64) {
        return Err(ForecastError::InvalidParameter);
    }
    let pv: u64 = present_value(goal, inflation_path);
    let g: u64 = monthly_growth_factor(annual_return);
    let months: u128 = (years as u128) * 12;
    match growth_over(g, months) {
        Some(growth) => {
            let p: u64 = annuity(pv, g, growth, months);
            Ok(p)
        },
        None => Err(ForecastError::Overflow),
    }
}

} // verus!
