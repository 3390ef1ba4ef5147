use vstd::prelude::*;

use crate::fixed::{ForecastError, SCALE};

verus! {

/// One year of the mean-reverting process, on exact integers: the previous
/// rate, moved by `mean_reversion * (long_term_mean - prev)` and by the shock
/// `volatility * draw`, all in fixed point, rounded down and floored at zero.
pub open spec fn step_rate(
    prev: int,
    volatility: int,
    mean_reversion: int,
    long_term_mean: int,
    draw: int,
) -> int {
    let n = SCALE * prev + mean_reversion * (long_term_mean - prev) + volatility * draw;
    if n < 0 {
        0
    } else {
        n / (SCALE as int)
    }
}

/// The first `years` rates of the path that starts at `start` and takes its
/// shock for year `t` from `draws[t - 1]`.
pub open spec fn rate_path(
    years: nat,
    start: int,
    volatility: int,
    mean_reversion: int,
    long_term_mean: int,
    draws: Seq<i64>,
) -> Seq<int>
    decreases years,
{
    if years == 0 {
        seq![]
    } else if years == 1 {
        seq![start]
    } else {
        let p = rate_path((years - 1) as nat, start, volatility, mean_reversion, long_term_mean, draws);
        p.push(step_rate(p.last(), volatility, mean_reversion, long_term_mean, draws[years - 2] as int))
    }
}

/// Every value of `s` fits in a `u64`.
pub open spec fn fits_u64(s: Seq<int>) -> bool {
    forall|i: int| 0 <= i < s.len() ==> 0 <= #[trigger] s[i] <= u64::MAX
}

/// The values of `s` as mathematical integers.
pub open spec fn as_ints(s: Seq<u64>) -> Seq<int> {
    s.map_values(|v: u64| v as int)
}

/// A shorter path is a prefix of a longer one.
pub proof fn lemma_rate_path_prefix(
    m: nat,
    n: nat,
    start: int,
    volatility: int,
    mean_reversion: int,
    long_term_mean: int,
    draws: Seq<i64>,
)
    requires
        m <= n,
    ensures
        rate_path(m, start, volatility, mean_reversion, long_term_mean, draws)
            == rate_path(n, start, volatility, mean_reversion, long_term_mean, draws).subrange(0, m as int),
    decreases n,
{
    let pn = rate_path(n, start, volatility, mean_reversion, long_term_mean, draws);
    lemma_rate_path_len(n, start, volatility, mean_reversion, long_term_mean, draws);
    if m == n {
        assert(pn.subrange(0, m as int) =~= pn);
    } else {
        let pn1 = rate_path((n - 1) as nat, start, volatility, mean_reversion, long_term_mean, draws);
        lemma_rate_path_prefix(m, (n - 1) as nat, start, volatility, mean_reversion, long_term_mean, draws);
        lemma_rate_path_len((n - 1) as nat, start, volatility, mean_reversion, long_term_mean, draws);
        if n == 1 {
            assert(pn.subrange(0, 0) =~= pn1.subrange(0, 0));
        } else {
            assert(pn.subrange(0, m as int) =~= pn1.subrange(0, m as int));
        }
    }
}

/// A path of `years` rates has `years` elements, and starts at `start`.
pub proof fn lemma_rate_path_len(
    years: nat,
    start: int,
    volatility: int,
    mean_reversion: int,
    long_term_mean: int,
    draws: Seq<i64>,
)
    ensures
        rate_path(years, start, volatility, mean_reversion, long_term_mean, draws).len() == years,
        years >= 1 ==> rate_path(years, start, volatility, mean_reversion, long_term_mean, draws)[0]
            == start,
    decreases years,
{
    if years > 1 {
        lemma_rate_path_len((years - 1) as nat, start, volatility, mean_reversion, long_term_mean, draws);
    }
}

/// A simulated path has one rate per year, starts at the start rate and
/// never holds a negative rate.
pub proof fn lemma_path_shape(
    years: nat,
    start: int,
    volatility: int,
    mean_reversion: int,
    long_term_mean: int,
    draws: Seq<i64>,
)
    requires
        start >= 0,
    ensures
        rate_path(years, start, volatility, mean_reversion, long_term_mean, draws).len() == years,
        years >= 1 ==> rate_path(years, start, volatility, mean_reversion, long_term_mean, draws)[0]
            == start,
        forall|t: int|
            0 <= t < years ==> #[trigger] rate_path(
                years,
                start,
                volatility,
                mean_reversion,
                long_term_mean,
                draws,
            )[t] >= 0,
    decreases years,
{
    lemma_rate_path_len(years, start, volatility, mean_reversion, long_term_mean, draws);
    if years > 1 {
        let p = rate_path((years - 1) as nat, start, volatility, mean_reversion, long_term_mean, draws);
        lemma_path_shape((years - 1) as nat, start, volatility, mean_reversion, long_term_mean, draws);
        let n = SCALE * p.last() + mean_reversion * (long_term_mean - p.last()) + volatility * (
        draws[years - 2] as int);
        if n >= 0 {
            vstd::arithmetic::div_mod::lemma_div_pos_is_pos(n, SCALE as int);
        }
        let full = rate_path(years, start, volatility, mean_reversion, long_term_mean, draws);
        assert forall|t: int| 0 <= t < years implies #[trigger] full[t] >= 0 by {
            if t < years - 1 {
                assert(full[t] == p[t]);
            }
        }
    }
}

/// A path depends on the draws only through the `years - 1` of them that it
/// consumes: two draw sequences that agree there give the same path.
pub proof fn lemma_path_reproducible(
    years: nat,
    start: int,
    volatility: int,
    mean_reversion: int,
    long_term_mean: int,
    draws1: Seq<i64>,
    draws2: Seq<i64>,
)
    requires
        years <= draws1.len() + 1,
        years <= draws2.len() + 1,
        forall|i: int| 0 <= i < years - 1 ==> draws1[i] == draws2[i],
    ensures
        rate_path(years, start, volatility, mean_reversion, long_term_mean, draws1) == rate_path(
            years,
            start,
            volatility,
            mean_reversion,
            long_term_mean,
            draws2,
        ),
    decreases years,
{
    if years > 1 {
        lemma_path_reproducible(
            (years - 1) as nat,
            start,
            volatility,
            mean_reversion,
            long_term_mean,
            draws1,
            draws2,
        );
        assert(draws1[years - 2] == draws2[years - 2]);
    }
}

/// One step of the process on machine integers: `None` exactly when the next
/// rate does not fit in a `u64`.
fn next_rate(prev: u64, volatility: u32, mean_reversion: i32, long_term_mean: i64, draw: i64) -> (r:
    Option<u64>)
    ensures
        match r {
            Some(v) => v as int == step_rate(
                prev as int,
                volatility as int,
                mean_reversion as int,
                long_term_mean as int,
                draw as int,
            ),
            None => step_rate(
                prev as int,
                volatility as int,
                mean_reversion as int,
                long_term_mean as int,
                draw as int,
            ) > u64::MAX,
        },
{
    let p: i128 = prev as i128;
    let k: i128 = mean_reversion as i128;
    let v: i128 = volatility as i128;
    let z: i128 = draw as i128;
    let diff: i128 = long_term_mean as i128 - p;
    assert(0 <= SCALE * p <= 0x1_0000_0000_0000_0000_0000_0000) by (nonlinear_arith)
        requires
            0 <= p <= u64::MAX,
    ;
    assert(-0x1_0000_0000_0000_0000_0000_0000 <= k * diff <= 0x1_0000_0000_0000_0000_0000_0000)
        by (nonlinear_arith)
        requires
            -0x8000_0000 <= k <= 0x7fff_ffff,
            -0x2_0000_0000_0000_0000 <= diff <= 0x2_0000_0000_0000_0000,
    ;
    assert(-0x1_0000_0000_0000_0000_0000_0000 <= v * z <= 0x1_0000_0000_0000_0000_0000_0000)
        by (nonlinear_arith)
        requires
            0 <= v <= 0xffff_ffff,
            -0x8000_0000_0000_0000 <= z <= 0x7fff_ffff_ffff_ffff,
    ;
    let n: i128 = (SCALE as i128) * p + k * diff + v * z;
    if n < 0 {
        Some(0)
    } else {
        let q: u128 = (n as u128) / (SCALE as u128);
        if q > u64::MAX as u128 {
            None
        } else {
            Some(q as u64)
        }
    }
}

/// Simulates one inflation path of `years` annual rates.
///
/// The path starts at `start_rate`; each later year moves the previous rate
/// toward `long_term_mean` by `mean_reversion` and adds the shock
/// `volatility * draws[t - 1]`, where `draws` are standard normal samples in
/// fixed point. Rates never go below zero. The result is fully determined by
/// the arguments, so a fixed sequence of draws reproduces the same path.
/// `Overflow` is returned exactly when some rate of the path exceeds `u64`.
pub fn simulate(
    years: usize,
    start_rate: u64,
    volatility: u32,
    mean_reversion: i32,
    long_term_mean: i64,
    draws: &[i64],
) -> (r: Result<Vec<u64>, ForecastError>)
    requires
        years <= draws@.len() + 1,
    ensures
        r.is_ok() <==> fits_u64(
            rate_path(
                years as nat,
                start_rate as int,
                volatility as int,
                mean_reversion as int,
                long_term_mean as int,
                draws@,
            ),
        ),
        match r {
            Ok(path) => as_ints(path@) == rate_path(
                years as nat,
                start_rate as int,
                volatility as int,
                mean_reversion as int,
                long_term_mean as int,
                draws@,
            ),
            Err(e) => e == ForecastError::Overflow,
        },
{
    let ghost s = start_rate as int;
    let ghost vo = volatility as int;
    let ghost k = mean_reversion as int;
    let ghost m = long_term_mean as int;
    let mut path: Vec<u64> = Vec::new();
    if years == 0 {
        assert(as_ints(path@) =~= rate_path(0, s, vo, k, m, draws@));
        return Ok(path);
    }
    path.push(start_rate);
    assert(as_ints(path@) =~= rate_path(1, s, vo, k, m, draws@));
    let mut prev: u64 = start_rate;
    let mut t: usize = 1;
    while t < years
        invariant
            1 <= t <= years,
            s == start_rate as int,
            vo == volatility as int,
            k == mean_reversion as int,
            m == long_term_mean as int,
            years <= draws@.len() + 1,
            path@.len() == t,
            prev == path@[t - 1],
            as_ints(path@) == rate_path(t as nat, s, vo, k, m, draws@),
        decreases years - t,
    {
        let ghost old_path = path@;
        proof {
            assert(as_ints(path@)[t - 1] == prev as int);
            assert(rate_path(t as nat, s, vo, k, m, draws@).last() == prev as int);
            assert(rate_path((t + 1) as nat, s, vo, k, m, draws@) == rate_path(t as nat, s, vo, k, m, draws@).push(
                step_rate(prev as int, vo, k, m, draws@[t - 1] as int),
            ));
        }
        let d: i64 = draws[t - 1];
        let nr = next_rate(prev, volatility, mean_reversion, long_term_mean, d);
        match nr {
            Some(v) => {
                path.push(v);
                prev = v;
                assert(as_ints(path@) =~= as_ints(old_path).push(v as int));
                t = t + 1;
            },
            None => {
                proof {
                    let next = rate_path((t + 1) as nat, s, vo, k, m, draws@);
                    lemma_rate_path_len((t + 1) as nat, s, vo, k, m, draws@);
                    lemma_rate_path_prefix((t + 1) as nat, years as nat, s, vo, k, m, draws@);
                    lemma_rate_path_len(years as nat, s, vo, k, m, draws@);
                    assert(next[t as int] > u64::MAX);
                    let full = rate_path(years as nat, s, vo, k, m, draws@);
                    assert(full[t as int] == next[t as int]);
                }
                return Err(ForecastError::Overflow);
            },
        }
    }
    proof {
        let full = rate_path(years as nat, s, vo, k, m, draws@);
        assert forall|i: int| 0 <= i < full.len() implies 0 <= #[trigger] full[i] <= u64::MAX by {
            assert(full[i] == as_ints(path@)[i]);
        }
    }
    Ok(path)
}

} // verus!
