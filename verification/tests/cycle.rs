use autocorr::cycle::{FetchEvent, LoopState, StatusLine};
use autocorr::extremes::RunningExtremes;
use autocorr::sample::SampleField;
use autocorr::series::{RawSample, RollingSeries};

fn state(capacity: usize, lag: usize) -> LoopState {
    let series = RollingSeries::initialize(capacity, "second", 1000).unwrap();
    LoopState::new(series, lag)
}

fn batch(pairs: &[(i64, i64)]) -> Vec<RawSample> {
    pairs
        .iter()
        .map(|&(timestamp, price)| RawSample { timestamp, price })
        .collect()
}

#[test]
fn failed_fetch_changes_nothing_and_renders_nothing() {
    let mut st = state(10, 1);
    let before_buckets = st.series.buckets();
    let line = st.cycle(FetchEvent::Failed);
    assert_eq!(line, None);
    assert_eq!(st.series.buckets(), before_buckets);
    assert_eq!(st.extremes.highest, None);
    assert_eq!(st.extremes.lowest, None);
    for e in &st.series.entries {
        assert_eq!(e.sample.fetched, None);
        assert_eq!(e.sample.estimate, None);
    }
}

#[test]
fn data_event_reports_price_statistic_and_extremes() {
    let mut st = state(10, 1);
    let line = st.cycle(FetchEvent::Data(batch(&[
        (995, 100),
        (996, 101),
        (997, 102),
        (998, 103),
        (999, 104),
        (1000, 105),
    ])));
    assert_eq!(
        line,
        Some(StatusLine::Report {
            last_price: 105,
            value: 399_877,
            highest: 399_877,
            lowest: 399_877,
        })
    );
    assert_eq!(st.extremes.highest, Some(399_877));
    assert_eq!(st.extremes.lowest, Some(399_877));
}

#[test]
fn data_event_merges_and_trims_to_capacity() {
    let mut st = state(3, 1);
    let _ = st.cycle(FetchEvent::Data(batch(&[
        (1001, 100),
        (1002, 110),
        (1003, 105),
    ])));
    assert_eq!(st.series.buckets(), vec![1001, 1002, 1003]);
}

#[test]
fn not_computable_when_too_little_data() {
    let mut st = state(10, 1);
    let line = st.cycle(FetchEvent::Data(Vec::new()));
    assert_eq!(line, Some(StatusLine::NotComputable));
    assert_eq!(st.extremes.highest, None);
    assert_eq!(st.extremes.lowest, None);
    let line = st.cycle(FetchEvent::Data(batch(&[(1000, 100)])));
    assert_eq!(line, Some(StatusLine::NotComputable));
}

#[test]
fn no_latest_price_when_newest_bucket_is_empty() {
    let mut st = state(10, 1);
    // prices land in buckets 992..=997; the newest bucket 1000 stays empty
    let line = st.cycle(FetchEvent::Data(batch(&[
        (992, 100),
        (993, 110),
        (994, 105),
        (995, 120),
        (996, 115),
        (997, 130),
    ])));
    assert_eq!(line, Some(StatusLine::NoLatestPrice));
    assert!(st.extremes.highest.is_some());
}

#[test]
fn extremes_widen_over_cycles() {
    let mut st = state(10, 1);
    // a rising series, then a falling one: the statistic changes sign
    let first = st.cycle(FetchEvent::Data(batch(&[
        (995, 100),
        (996, 101),
        (997, 102),
        (998, 103),
        (999, 104),
        (1000, 105),
    ])));
    let high0 = st.extremes.highest.unwrap();
    let low0 = st.extremes.lowest.unwrap();
    assert!(matches!(first, Some(StatusLine::Report { .. })));
    let _ = st.cycle(FetchEvent::Data(batch(&[
        (1001, 110),
        (1002, 104),
        (1003, 118),
        (1004, 109),
        (1005, 125),
    ])));
    let high1 = st.extremes.highest.unwrap();
    let low1 = st.extremes.lowest.unwrap();
    assert!(high1 >= high0);
    assert!(low1 <= low0);
    assert!(low1 <= high1);
}

#[test]
fn running_extremes_only_move_outward() {
    let mut e = RunningExtremes::new();
    let values: [i128; 5] = [5, -3, 2, 10, -7];
    let expected_high: [i128; 5] = [5, 5, 5, 10, 10];
    let expected_low: [i128; 5] = [5, -3, -3, -3, -7];
    for i in 0..values.len() {
        let (h, l) = e.update(values[i]);
        assert_eq!(h, expected_high[i]);
        assert_eq!(l, expected_low[i]);
        assert_eq!(e.highest, Some(expected_high[i]));
        assert_eq!(e.lowest, Some(expected_low[i]));
    }
}

#[test]
fn merge_during_cycle_writes_the_fetched_field() {
    let mut st = state(10, 1);
    let _ = st.cycle(FetchEvent::Data(batch(&[(1000, 105)])));
    let entry = st
        .series
        .entries
        .iter()
        .find(|e| e.bucket == 1000)
        .unwrap();
    assert_eq!(entry.sample.fetched, Some(105));
    assert_eq!(entry.sample.estimate, None);
    // an estimate written beside it survives the next fetched merge
    st.series.merge_sample(SampleField::Estimate, 1000, 99);
    let _ = st.cycle(FetchEvent::Data(batch(&[(1000, 106)])));
    let entry = st
        .series
        .entries
        .iter()
        .find(|e| e.bucket == 1000)
        .unwrap();
    assert_eq!(entry.sample.fetched, Some(106));
    assert_eq!(entry.sample.estimate, Some(99));
}
