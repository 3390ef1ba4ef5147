use vstd::prelude::*;
use vstd::arithmetic::div_mod::{lemma_div_is_ordered, lemma_div_multiples_vanish};

use crate::fixed::ForecastError;
use crate::simulate::{as_ints, fits_u64, lemma_rate_path_len, rate_path, simulate};

verus! {

broadcast use vstd::seq_lib::group_to_multiset_ensures;

/// The three representative trajectories of an ensemble: the per-year mean
/// and the lower and upper percentile picks.
pub struct SummaryBands {
    pub mean: Vec<u64>,
    pub lower: Vec<u64>,
    pub upper: Vec<u64>,
}

/// The values of `s` as mathematical integers, narrowed back to `u64`.
pub open spec fn to_u64s(s: Seq<int>) -> Seq<u64> {
    s.map_values(|v: int| v as u64)
}

/// The contents of a sequence of vectors.
pub open spec fn views(paths: Seq<Vec<u64>>) -> Seq<Seq<u64>> {
    paths.map_values(|p: Vec<u64>| p@)
}

/// The ensemble of paths, the `i`-th one driven by `draws[i]`.
pub open spec fn ensemble(
    years: nat,
    start: int,
    volatility: int,
    mean_reversion: int,
    long_term_mean: int,
    draws: Seq<Vec<i64>>,
) -> Seq<Seq<u64>> {
    Seq::new(
        draws.len(),
        |i: int| to_u64s(rate_path(years, start, volatility, mean_reversion, long_term_mean, draws[i]@)),
    )
}

/// The values at year `y` across all paths.
pub open spec fn column(paths: Seq<Seq<u64>>, y: int) -> Seq<u64> {
    Seq::new(paths.len(), |i: int| paths[i][y])
}

/// The sum of the values of `s`.
pub open spec fn col_sum(s: Seq<u64>) -> int
    decreases s.len(),
{
    if s.len() == 0 {
        0
    } else {
        col_sum(s.drop_last()) + s.last()
    }
}

/// `s` is in ascending order.
pub open spec fn ascending(s: Seq<u64>) -> bool {
    forall|i: int, j: int| 0 <= i <= j < s.len() ==> s[i] <= s[j]
}

/// Rank of the lower percentile in a sorted sample of `n` values.
pub open spec fn lower_rank(n: int) -> int {
    n / 10
}

/// Rank of the upper percentile in a sorted sample of `n` values.
pub open spec fn upper_rank(n: int) -> int {
    n * 9 / 10
}

/// `lo` and `hi` are the values at the lower and upper percentile ranks of
/// `col` once it is sorted in ascending order.
pub open spec fn ranked_picks(col: Seq<u64>, lo: u64, hi: u64) -> bool {
    exists|s: Seq<u64>|
        #[trigger] ascending(s) && s.to_multiset() == col.to_multiset() && lo == s[lower_rank(
            col.len() as int,
        )] && hi == s[upper_rank(col.len() as int)]
}

/// `mean`, `lower` and `upper` summarise the first `years` years of `paths`.
pub open spec fn is_summary(
    paths: Seq<Seq<u64>>,
    years: int,
    mean: Seq<u64>,
    lower: Seq<u64>,
    upper: Seq<u64>,
) -> bool {
    &&& mean.len() == years
    &&& lower.len() == years
    &&& upper.len() == years
    &&& forall|y: int|
        0 <= y < years ==> {
            &&& #[trigger] mean[y] == col_sum(column(paths, y)) / (paths.len() as int)
            &&& ranked_picks(column(paths, y), lower[y], upper[y])
        }
}

/// In a summary the three bands have one value per year, and in every year
/// the lower band never lies above the upper band (both are picked from one
/// sorted column and the lower rank does not exceed the upper one), and the
/// mean lies between the smallest and the largest rate of that year.
pub proof fn lemma_bands_ordered(
    paths: Seq<Seq<u64>>,
    years: int,
    mean: Seq<u64>,
    lower: Seq<u64>,
    upper: Seq<u64>,
    y: int,
)
    requires
        paths.len() >= 1,
        is_summary(paths, years, mean, lower, upper),
        0 <= y < years,
    ensures
        mean.len() == years,
        lower.len() == years,
        upper.len() == years,
        lower[y] <= upper[y],
        exists|i: int, j: int|
            #![trigger paths[i][y], paths[j][y]]
            0 <= i < paths.len() && 0 <= j < paths.len() && paths[i][y] <= mean[y] <= paths[j][y],
{
    let c = column(paths, y);
    assert(mean[y] == col_sum(c) / (paths.len() as int));
    assert(ranked_picks(c, lower[y], upper[y]));
    let s = choose|s: Seq<u64>|
        #[trigger] ascending(s) && s.to_multiset() == c.to_multiset() && lower[y] == s[lower_rank(
            c.len() as int,
        )] && upper[y] == s[upper_rank(c.len() as int)];
    let n = c.len() as int;
    assert(s.len() == n) by {
        assert(s.to_multiset().len() == c.to_multiset().len());
    }
    assert(0 <= n / 10 <= n * 9 / 10 < n) by (nonlinear_arith)
        requires
            n >= 1,
    ;
    let lo = s[0];
    let hi = s[n - 1];
    assert forall|k: int| 0 <= k < n implies lo <= #[trigger] c[k] <= hi by {
        assert(c.to_multiset().contains(c[k]));
        assert(s.to_multiset().contains(c[k]));
        let j = choose|j: int| 0 <= j < s.len() && s[j] == c[k];
    }
    lemma_col_sum_between(c, lo as int, hi as int);
    lemma_div_is_ordered(n * lo, col_sum(c), n);
    lemma_div_is_ordered(col_sum(c), n * hi, n);
    assert(n * lo == lo * n && n * hi == hi * n) by (nonlinear_arith);
    lemma_div_multiples_vanish(lo as int, n);
    lemma_div_multiples_vanish(hi as int, n);
    assert(s.to_multiset().contains(lo));
    assert(s.to_multiset().contains(hi));
    assert(c.to_multiset().contains(lo));
    assert(c.to_multiset().contains(hi));
    let i = choose|i: int| 0 <= i < c.len() && c[i] == lo;
    let j = choose|j: int| 0 <= j < c.len() && c[j] == hi;
    assert(paths[i][y] <= mean[y] <= paths[j][y]);
}

/// A sum of `n` values that all lie in `[lo, hi]` lies in `[n * lo, n * hi]`.
proof fn lemma_col_sum_between(c: Seq<u64>, lo: int, hi: int)
    requires
        forall|k: int| 0 <= k < c.len() ==> lo <= #[trigger] c[k] <= hi,
    ensures
        c.len() * lo <= col_sum(c) <= c.len() * hi,
    decreases c.len(),
{
    if c.len() > 0 {
        let d = c.drop_last();
        assert forall|k: int| 0 <= k < d.len() implies lo <= #[trigger] d[k] <= hi by {
            assert(d[k] == c[k]);
        }
        lemma_col_sum_between(d, lo, hi);
        let m = d.len() as int;
        assert(m * lo + lo == (m + 1) * lo && m * hi + hi == (m + 1) * hi) by (nonlinear_arith);
    }
}

/// A single-path ensemble has no spread: in every year the mean, the lower
/// and the upper band all equal that path's rate.
pub proof fn lemma_single_path_no_spread(
    paths: Seq<Seq<u64>>,
    years: int,
    mean: Seq<u64>,
    lower: Seq<u64>,
    upper: Seq<u64>,
    y: int,
)
    requires
        paths.len() == 1,
        is_summary(paths, years, mean, lower, upper),
        0 <= y < years,
    ensures
        mean[y] == paths[0][y],
        lower[y] == paths[0][y],
        upper[y] == paths[0][y],
{
    let c = column(paths, y);
    let v = paths[0][y];
    assert(mean[y] == col_sum(c) / (paths.len() as int));
    assert(c.drop_last() =~= Seq::<u64>::empty());
    assert(col_sum(c.drop_last()) == 0);
    assert(c.last() == v);
    assert(col_sum(c) == v);
    assert(ranked_picks(c, lower[y], upper[y]));
    let s = choose|s: Seq<u64>|
        #[trigger] ascending(s) && s.to_multiset() == c.to_multiset() && lower[y] == s[lower_rank(
            c.len() as int,
        )] && upper[y] == s[upper_rank(c.len() as int)];
    assert(s.len() == 1) by {
        assert(s.to_multiset().len() == c.to_multiset().len());
    }
    assert(c.to_multiset().contains(v)) by {
        assert(c[0] == v);
    }
    assert(s.to_multiset().contains(v));
    assert(s[0] == v);
    assert(lower_rank(1) == 0 && upper_rank(1) == 0);
}

/// Relies on `slice::sort_unstable`: afterwards the vector holds the same
/// values in ascending order.
#[verifier::external_body]
fn sort_ascending(v: &mut Vec<u64>)
    ensures
        ascending(final(v)@),
        final(v)@.to_multiset() == old(v)@.to_multiset(),
{
    v.sort_unstable();
}

/// The sum of `n` values is at most `n` times their bound.
proof fn lemma_col_sum_bound(s: Seq<u64>)
    ensures
        0 <= col_sum(s) <= s.len() * 0xffff_ffff_ffff_ffff,
    decreases s.len(),
{
    if s.len() > 0 {
        lemma_col_sum_bound(s.drop_last());
    }
}

/// Reduces an ensemble of equally long paths to its mean and percentile bands
/// over the first `years` years.
///
/// For each year the values across paths are averaged (rounding down) and
/// sorted; the lower band takes the value at rank `n / 10` and the upper band
/// the value at rank `n * 9 / 10`, where `n` is the number of paths.
pub fn summarize(paths: &Vec<Vec<u64>>, years: usize) -> (b: SummaryBands)
    requires
        paths@.len() >= 1,
        forall|i: int| 0 <= i < paths@.len() ==> #[trigger] paths@[i]@.len() == years,
    ensures
        is_summary(views(paths@), years as int, b.mean@, b.lower@, b.upper@),
{
    let n: usize = paths.len();
    let ghost vp = views(paths@);
    let mut mean: Vec<u64> = Vec::new();
    let mut lower: Vec<u64> = Vec::new();
    let mut upper: Vec<u64> = Vec::new();
    let mut y: usize = 0;
    while y < years
        invariant
            n == paths@.len(),
            n >= 1,
            vp == views(paths@),
            forall|i: int| 0 <= i < paths@.len() ==> #[trigger] paths@[i]@.len() == years,
            y <= years,
            mean@.len() == y,
            lower@.len() == y,
            upper@.len() == y,
            forall|yy: int|
                0 <= yy < y ==> {
                    &&& #[trigger] mean@[yy] == col_sum(column(vp, yy)) / (n as int)
                    &&& ranked_picks(column(vp, yy), lower@[yy], upper@[yy])
                },
        decreases years - y,
    {
        let mut col: Vec<u64> = Vec::new();
        let mut sum: u128 = 0;
        let mut i: usize = 0;
        while i < n
            invariant
                n == paths@.len(),
                vp == views(paths@),
                forall|i: int| 0 <= i < paths@.len() ==> #[trigger] paths@[i]@.len() == years,
                y < years,
                i <= n,
                col@ == column(vp, y as int).subrange(0, i as int),
                sum == col_sum(col@),
                sum <= i * 0xffff_ffff_ffff_ffff,
            decreases n - i,
        {
            let v: u64 = paths[i][y];
            let ghost before = col@;
            col.push(v);
            assert(col@.drop_last() =~= before);
            assert(col@ =~= column(vp, y as int).subrange(0, i + 1));
            sum = sum + v as u128;
            i = i + 1;
        }
        let ghost c = column(vp, y as int);
        assert(col@ =~= c);
        proof {
            lemma_col_sum_bound(col@);
            let m: int = 0xffff_ffff_ffff_ffff;
            assert(n * m == m * n) by (nonlinear_arith);
            lemma_div_is_ordered(sum as int, (n * m) as int, n as int);
            lemma_div_multiples_vanish(m, n as int);
        }
        let avg: u64 = (sum / n as u128) as u64;
        let ghost unsorted = col@;
        sort_ascending(&mut col);
        assert(col@.len() == n) by {
            assert(col@.to_multiset().len() == unsorted.to_multiset().len());
        }
        assert(n / 10 < n && n * 9 / 10 < n) by (nonlinear_arith)
            requires
                n >= 1,
        ;
        let lo: u64 = col[n / 10];
        let hi: u64 = col[((n as u128) * 9 / 10) as usize];
        assert(ascending(col@));
        assert(ranked_picks(c, lo, hi));
        mean.push(avg);
        lower.push(lo);
        upper.push(hi);
        y = y + 1;
    }
    SummaryBands { mean, lower, upper }
}

/// Simulates `num_simulations` inflation paths and summarises them.
///
/// Path `i` is `simulate` driven by `draws[i]`; the paths are then reduced by
/// `summarize`. `InvalidParameter` is returned exactly when there is no
/// simulation to run, and `Overflow` exactly when some path leaves `u64`.
pub fn aggregate(
    num_simulations: usize,
    years: usize,
    start_rate: u64,
    volatility: u32,
    mean_reversion: i32,
    long_term_mean: i64,
    draws: &Vec<Vec<i64>>,
) -> (r: Result<SummaryBands, ForecastError>)
    requires
        draws@.len() == num_simulations,
        forall|i: int| 0 <= i < draws@.len() ==> years <= #[trigger] draws@[i]@.len() + 1,
    ensures
        r == Err::<SummaryBands, ForecastError>(ForecastError::InvalidParameter) <==> num_simulations
            == 0,
        r == Err::<SummaryBands, ForecastError>(ForecastError::Overflow) <==> (num_simulations >= 1
            && exists|i: int|
            0 <= i < num_simulations && !fits_u64(
                #[trigger] rate_path(
                    years as nat,
                    start_rate as int,
                    volatility as int,
                    mean_reversion as int,
                    long_term_mean as int,
                    draws@[i]@,
                ),
            )),
        r is Ok <==> (num_simulations >= 1 && forall|i: int|
            0 <= i < num_simulations ==> fits_u64(
                #[trigger] rate_path(
                    years as nat,
                    start_rate as int,
                    volatility as int,
                    mean_reversion as int,
                    long_term_mean as int,
                    draws@[i]@,
                ),
            )),
        match r {
            Ok(b) => is_summary(
                ensemble(
                    years as nat,
                    start_rate as int,
                    volatility as int,
                    mean_reversion as int,
                    long_term_mean as int,
                    draws@,
                ),
                years as int,
                b.mean@,
                b.lower@,
                b.upper@,
            ),
            Err(_) => true,
        },
{
    if num_simulations == 0 {
        return Err(ForecastError::InvalidParameter);
    }
    let ghost ens = ensemble(
        years as nat,
        start_rate as int,
        volatility as int,
        mean_reversion as int,
        long_term_mean as int,
        draws@,
    );
    let mut paths: Vec<Vec<u64>> = Vec::new();
    let mut i: usize = 0;
    while i < num_simulations
        invariant
            draws@.len() == num_simulations,
            forall|i: int| 0 <= i < draws@.len() ==> years <= #[trigger] draws@[i]@.len() + 1,
            ens == ensemble(
                years as nat,
                start_rate as int,
                volatility as int,
                mean_reversion as int,
                long_term_mean as int,
                draws@,
            ),
            i <= num_simulations,
            views(paths@) == ens.subrange(0, i as int),
            forall|j: int| 0 <= j < i ==> #[trigger] paths@[j]@.len() == years,
            forall|j: int|
                0 <= j < i ==> fits_u64(
                    #[trigger] rate_path(
                        years as nat,
                        start_rate as int,
                        volatility as int,
                        mean_reversion as int,
                        long_term_mean as int,
                        draws@[j]@,
                    ),
                ),
        decreases num_simulations - i,
    {
        match simulate(
            years,
            start_rate,
            volatility,
            mean_reversion,
            long_term_mean,
            draws[i].as_slice(),
        ) {
            Ok(p) => {
                proof {
                    let q = rate_path(
                        years as nat,
                        start_rate as int,
                        volatility as int,
                        mean_reversion as int,
                        long_term_mean as int,
                        draws@[i as int]@,
                    );
                    lemma_rate_path_len(
                        years as nat,
                        start_rate as int,
                        volatility as int,
                        mean_reversion as int,
                        long_term_mean as int,
                        draws@[i as int]@,
                    );
                    assert(p@ =~= to_u64s(q)) by {
                        assert forall|k: int| 0 <= k < p@.len() implies p@[k] == to_u64s(q)[k] by {
                            assert(as_ints(p@)[k] == q[k]);
                        }
                    }
                }
                let ghost before = paths@;
                paths.push(p);
                assert(views(paths@) =~= ens.subrange(0, i + 1)) by {
                    assert(views(paths@) =~= views(before).push(p@));
                }
                i = i + 1;
            },
            Err(e) => {
                assert(!fits_u64(
                    rate_path(
                        years as nat,
                        start_rate as int,
                        volatility as int,
                        mean_reversion as int,
                        long_term_mean as int,
                        draws@[i as int]@,
                    ),
                ));
                return Err(e);
            },
        }
    }
    assert(views(paths@) =~= ens);
    let b = summarize(&paths, years);
    Ok(b)
}

} // verus!
