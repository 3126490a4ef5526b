use autocorr::autocorrelation::autocorrelation_of_returns;
use autocorr::sample::PriceSample;

fn with_prices(prices: &[i64]) -> Vec<PriceSample> {
    prices
        .iter()
        .map(|&p| PriceSample { estimate: None, fetched: Some(p) })
        .collect()
}

#[test]
fn none_on_empty_snapshot() {
    let samples: Vec<PriceSample> = Vec::new();
    assert_eq!(autocorrelation_of_returns(&samples, 0), None);
}

#[test]
fn none_on_single_present_price() {
    let mut samples = with_prices(&[100]);
    samples.push(PriceSample { estimate: None, fetched: None });
    samples.push(PriceSample { estimate: None, fetched: None });
    assert_eq!(autocorrelation_of_returns(&samples, 0), None);
    assert_eq!(autocorrelation_of_returns(&samples, 1), None);
}

#[test]
fn none_when_lag_reaches_return_count() {
    // three prices make two returns: lags 2 and beyond are too large
    let samples = with_prices(&[100, 110, 125]);
    assert!(autocorrelation_of_returns(&samples, 1).is_some());
    assert_eq!(autocorrelation_of_returns(&samples, 2), None);
    assert_eq!(autocorrelation_of_returns(&samples, 100), None);
}

#[test]
fn none_on_constant_prices_any_lag() {
    let samples = with_prices(&[250, 250, 250, 250, 250]);
    for lag in 0..4 {
        assert_eq!(autocorrelation_of_returns(&samples, lag), None);
    }
}

#[test]
fn lag_zero_of_varying_series_is_scale() {
    // with lag 0 the covariance sum equals the square sum, so the statistic
    // is exactly 1.0, i.e. SCALE
    let samples = with_prices(&[100, 110, 105, 120]);
    assert_eq!(autocorrelation_of_returns(&samples, 0), Some(1_000_000));
}

#[test]
fn fixture_six_prices_lag_one() {
    // prices 100..=105; returns at the internal scale are [10000000,
    // 9900990, 9803921, 9708737, 9615384]; mean 9805806, deviations
    // [194194, 95184, -1885, -97069, -190422]; lag-1 covariance sum
    // 36971788039, square sum 92457785562; the statistic is their ratio
    // times SCALE, within 1e-6 of the exact 0.3998769...
    let samples = with_prices(&[100, 101, 102, 103, 104, 105]);
    assert_eq!(autocorrelation_of_returns(&samples, 1), Some(399_877));
}

#[test]
fn empty_buckets_are_skipped_not_interpolated() {
    // the same six prices, with empty buckets interleaved, give the same
    // statistic: returns pair up the nearest known prices
    let gap = PriceSample { estimate: None, fetched: None };
    let mut samples = Vec::new();
    for &p in &[100i64, 101, 102] {
        samples.push(PriceSample { estimate: None, fetched: Some(p) });
        samples.push(gap);
    }
    for &p in &[103i64, 104, 105] {
        samples.push(PriceSample { estimate: None, fetched: Some(p) });
    }
    assert_eq!(autocorrelation_of_returns(&samples, 1), Some(399_877));
}

#[test]
fn fetched_price_preferred_over_estimate() {
    // estimates alone would make the series constant; the fetched values vary
    let samples = vec![
        PriceSample { estimate: Some(100), fetched: Some(100) },
        PriceSample { estimate: Some(100), fetched: Some(110) },
        PriceSample { estimate: Some(100), fetched: Some(105) },
        PriceSample { estimate: Some(100), fetched: Some(120) },
    ];
    assert!(autocorrelation_of_returns(&samples, 1).is_some());
}

#[test]
fn estimate_counts_when_no_fetched_price() {
    let samples = vec![
        PriceSample { estimate: Some(100), fetched: None },
        PriceSample { estimate: Some(101), fetched: None },
        PriceSample { estimate: None, fetched: Some(102) },
        PriceSample { estimate: Some(103), fetched: None },
        PriceSample { estimate: None, fetched: Some(104) },
        PriceSample { estimate: Some(105), fetched: None },
    ];
    assert_eq!(autocorrelation_of_returns(&samples, 1), Some(399_877));
}

#[test]
fn negative_statistic_on_alternating_series() {
    let samples = with_prices(&[100, 110, 105, 120, 115, 130]);
    assert_eq!(autocorrelation_of_returns(&samples, 1), Some(-829_156));
}

#[test]
fn full_capacity_snapshot_at_extreme_prices() {
    // 740 samples — the widest store — swinging across the whole accepted
    // price range, so the intermediate sums are at their largest
    let prices: Vec<i64> = (0..740)
        .map(|i| if i % 2 == 0 { 1 } else { 100_000_000 })
        .collect();
    let samples = with_prices(&prices);
    assert_eq!(autocorrelation_of_returns(&samples, 1), Some(-998_646));
}

#[test]
fn default_lag_on_long_series() {
    let prices: Vec<i64> = (0..740)
        .map(|i| if i % 2 == 0 { 100_000_000 } else { 50_000_000 })
        .collect();
    let samples = with_prices(&prices);
    assert_eq!(autocorrelation_of_returns(&samples, 15), Some(-979_702));
}

#[test]
fn two_prices_have_zero_variance() {
    // a single return always equals its mean, so the variance is zero
    let samples = with_prices(&[100, 101]);
    assert_eq!(autocorrelation_of_returns(&samples, 0), None);
}
