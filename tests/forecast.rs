use inflation_savings::ensemble::{aggregate, summarize};
use inflation_savings::fixed::{ForecastError, SCALE};
use inflation_savings::power::monthly_growth_factor;
use inflation_savings::savings::{present_value, solve};
use inflation_savings::simulate::simulate;

fn fp_pow(x: u64, k: u32) -> u128 {
    let mut h: u128 = SCALE as u128;
    for _ in 0..k {
        h = h * x as u128 / SCALE as u128;
    }
    h
}

#[test]
fn simulate_zero_years_is_empty() {
    assert_eq!(simulate(0, 20_000_000, 5_000_000, 300_000_000, 20_000_000, &[]), Ok(vec![]));
}

#[test]
fn simulate_one_year_is_start_rate() {
    assert_eq!(simulate(1, 20_000_000, 5_000_000, 300_000_000, 20_000_000, &[]), Ok(vec![20_000_000]));
}

#[test]
fn simulate_without_volatility_reverts_to_mean() {
    let draws = vec![123_456_789, -987_654_321];
    let path = simulate(3, 20_000_000, 0, 300_000_000, 30_000_000, &draws).unwrap();
    assert_eq!(path, vec![20_000_000, 23_000_000, 25_100_000]);
}

#[test]
fn simulate_applies_scaled_shock() {
    let draws = vec![SCALE as i64, 2 * SCALE as i64];
    let path = simulate(3, 20_000_000, 5_000_000, 0, 0, &draws).unwrap();
    assert_eq!(path, vec![20_000_000, 25_000_000, 35_000_000]);
}

#[test]
fn simulate_floors_rates_at_zero() {
    let draws = vec![-(SCALE as i64), 0];
    let path = simulate(3, 1_000_000, 5_000_000, 0, 0, &draws).unwrap();
    assert_eq!(path, vec![1_000_000, 0, 0]);
}

#[test]
fn simulate_shape_on_random_like_draws() {
    let draws: Vec<i64> = (0..29).map(|i| ((i * 7919) % 4001 - 2000) as i64 * 1_000_000).collect();
    let path = simulate(30, 20_000_000, 5_000_000, 300_000_000, 20_000_000, &draws).unwrap();
    assert_eq!(path.len(), 30);
    assert_eq!(path[0], 20_000_000);
}

#[test]
fn simulate_is_reproducible_from_fixed_draws() {
    let draws: Vec<i64> = vec![500_000_000, -1_200_000_000, 300_000_000, 2_000_000_000];
    let a = simulate(5, 20_000_000, 5_000_000, 300_000_000, 20_000_000, &draws);
    let b = simulate(5, 20_000_000, 5_000_000, 300_000_000, 20_000_000, &draws);
    assert_eq!(a, b);
    let mut longer = draws.clone();
    longer.push(999);
    let c = simulate(5, 20_000_000, 5_000_000, 300_000_000, 20_000_000, &longer);
    assert_eq!(a, c);
}

#[test]
fn simulate_reports_overflow() {
    let draws = vec![i64::MAX];
    assert_eq!(
        simulate(2, u64::MAX, u32::MAX, 0, 0, &draws),
        Err(ForecastError::Overflow)
    );
}

#[test]
fn aggregate_without_simulations_is_invalid() {
    let draws: Vec<Vec<i64>> = vec![];
    assert!(matches!(
        aggregate(0, 5, 20_000_000, 5_000_000, 300_000_000, 20_000_000, &draws),
        Err(ForecastError::InvalidParameter)
    ));
}

#[test]
fn aggregate_single_simulation_has_no_spread() {
    let draws = vec![vec![400_000_000, -700_000_000, 1_100_000_000, 50_000_000]];
    let bands = aggregate(1, 5, 20_000_000, 5_000_000, 300_000_000, 20_000_000, &draws).unwrap();
    let path = simulate(5, 20_000_000, 5_000_000, 300_000_000, 20_000_000, &draws[0]).unwrap();
    assert_eq!(bands.mean.len(), 5);
    assert_eq!(bands.mean, bands.lower);
    assert_eq!(bands.lower, bands.upper);
    assert_eq!(bands.mean, path);
}

#[test]
fn aggregate_picks_ranks_of_sorted_column() {
    let shocks: [i64; 10] = [5, 3, 9, 1, 7, 2, 8, 4, 6, 10];
    let draws: Vec<Vec<i64>> = shocks.iter().map(|s| vec![*s]).collect();
    let bands = aggregate(10, 2, 0, SCALE as u32, 0, 0, &draws).unwrap();
    assert_eq!(bands.mean, vec![0, 5]);
    assert_eq!(bands.lower, vec![0, 2]);
    assert_eq!(bands.upper, vec![0, 10]);
}

#[test]
fn aggregate_bands_are_ordered() {
    let draws: Vec<Vec<i64>> = (0..200)
        .map(|i| (0..9).map(|j| (((i * 31 + j * 17) % 41) as i64 - 20) * 100_000_000).collect())
        .collect();
    let bands = aggregate(200, 10, 20_000_000, 5_000_000, 300_000_000, 20_000_000, &draws).unwrap();
    assert_eq!(bands.mean.len(), 10);
    assert_eq!(bands.lower.len(), 10);
    assert_eq!(bands.upper.len(), 10);
    for y in 0..10 {
        assert!(bands.lower[y] <= bands.upper[y]);
    }
    assert_eq!(bands.mean[0], 20_000_000);
}

#[test]
fn aggregate_reports_overflow() {
    let draws = vec![vec![0], vec![i64::MAX]];
    assert!(matches!(
        aggregate(2, 2, u64::MAX, u32::MAX, 0, 0, &draws),
        Err(ForecastError::Overflow)
    ));
}

#[test]
fn summarize_mean_rounds_down() {
    let paths = vec![vec![1, 4], vec![2, 4], vec![2, 5]];
    let bands = summarize(&paths, 2);
    assert_eq!(bands.mean, vec![1, 4]);
    assert_eq!(bands.lower, vec![1, 4]);
    assert_eq!(bands.upper, vec![2, 5]);
}

#[test]
fn present_value_applies_latest_rate_first() {
    assert_eq!(present_value(1000, &[100_000_000, 0]), 909);
    assert_eq!(present_value(100_000, &[100_000_000, 0]), 90_909);
    // Latest year (50%) first: 1000 / 1.5 = 666, then / 1.1 = 605.
    // The forward order would give 1000 / 1.1 = 909, then / 1.5 = 606.
    assert_eq!(present_value(1000, &[100_000_000, 500_000_000]), 605);
}

#[test]
fn solve_one_year_without_inflation_or_return() {
    assert_eq!(solve(12000, 1, &[0], 0), Ok(1000));
}

#[test]
fn solve_zero_return_is_equal_installments() {
    let path = [0, 100_000_000];
    let pv = present_value(1_000_000, &path);
    assert_eq!(pv, 909_090);
    assert_eq!(solve(1_000_000, 2, &path, 0), Ok(909_090 / 24));
}

#[test]
fn solve_rejects_invalid_parameters() {
    assert_eq!(solve(0, 1, &[0], 0), Err(ForecastError::InvalidParameter));
    assert_eq!(solve(1000, 0, &[], 0), Err(ForecastError::InvalidParameter));
    assert_eq!(solve(1000, 2, &[0], 0), Err(ForecastError::InvalidParameter));
    assert_eq!(solve(1000, 1, &[0], -(SCALE as i64)), Err(ForecastError::InvalidParameter));
}

#[test]
fn solve_reports_overflow() {
    let path = vec![0u64; 10];
    assert_eq!(solve(1000, 10, &path, i64::MAX), Err(ForecastError::Overflow));
}

#[test]
fn solve_doubling_goal_at_least_doubles_payment() {
    let path = [20_000_000, 25_000_000, 30_000_000];
    for goal in [1u64, 7, 999, 12_345, 1_000_000] {
        let one = solve(goal, 3, &path, 50_000_000).unwrap();
        let two = solve(2 * goal, 3, &path, 50_000_000).unwrap();
        assert!(2 * one <= two);
        assert!(two <= 2 * one + 2);
    }
}

#[test]
fn solve_matches_annuity_formula() {
    let goal: u64 = 10_000_000;
    let path = vec![20_000_000u64; 10];
    let paid = solve(goal, 10, &path, 50_000_000).unwrap() as f64;
    let pv = goal as f64 / 1.02f64.powi(10);
    let r = 1.05f64.powf(1.0 / 12.0) - 1.0;
    let expected = pv * r / ((1.0 + r).powi(120) - 1.0);
    assert!((paid - expected).abs() / expected < 1e-3);
}

#[test]
fn solve_negative_return_needs_more_than_equal_shares() {
    let path = [0u64; 5];
    let paid = solve(6_000_000, 5, &path, -100_000_000).unwrap();
    assert!(paid > 100_000);
    assert!(paid < 6_000_000);
}

#[test]
fn monthly_factor_of_zero_return_is_one() {
    assert_eq!(monthly_growth_factor(0), SCALE);
}

#[test]
fn monthly_factor_compounds_to_annual_return() {
    let g = monthly_growth_factor(50_000_000);
    assert!(fp_pow(g, 12) <= 1_050_000_000);
    assert!(fp_pow(g + 1, 12) > 1_050_000_000);
    assert!((1_004_074_100..=1_004_074_200).contains(&g));
    let d = monthly_growth_factor(-100_000_000);
    assert!(fp_pow(d, 12) <= 900_000_000);
    assert!(fp_pow(d + 1, 12) > 900_000_000);
    assert!(d < SCALE);
}
