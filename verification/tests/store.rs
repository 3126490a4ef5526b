use autocorr::sample::{PriceSample, SampleField};
use autocorr::series::{ConfigError, Period, RawSample, RollingSeries};

fn fetched(series: &RollingSeries, bucket: i64) -> Option<i64> {
    series
        .entries
        .iter()
        .find(|e| e.bucket == bucket)
        .and_then(|e| e.sample.fetched)
}

fn estimate(series: &RollingSeries, bucket: i64) -> Option<i64> {
    series
        .entries
        .iter()
        .find(|e| e.bucket == bucket)
        .and_then(|e| e.sample.estimate)
}

#[test]
fn initialize_rejects_zero_capacity() {
    let r = RollingSeries::initialize(0, "hour", 1_700_000_000);
    assert_eq!(r.err(), Some(ConfigError::InvalidCapacity));
}

#[test]
fn initialize_rejects_capacity_at_bound() {
    let r = RollingSeries::initialize(741, "hour", 1_700_000_000);
    assert_eq!(r.err(), Some(ConfigError::InvalidCapacity));
    let r = RollingSeries::initialize(1000, "day", 1_700_000_000);
    assert_eq!(r.err(), Some(ConfigError::InvalidCapacity));
}

#[test]
fn initialize_accepts_capacity_below_bound() {
    let r = RollingSeries::initialize(740, "hour", 1_700_000_000);
    assert!(r.is_ok());
    assert_eq!(r.unwrap().entries.len(), 740);
}

#[test]
fn initialize_rejects_unknown_period_name() {
    let r = RollingSeries::initialize(10, "week", 1_700_000_000);
    assert_eq!(r.err(), Some(ConfigError::InvalidPeriodName));
    let r = RollingSeries::initialize(10, "", 1_700_000_000);
    assert_eq!(r.err(), Some(ConfigError::InvalidPeriodName));
    let r = RollingSeries::initialize(10, "Hour", 1_700_000_000);
    assert_eq!(r.err(), Some(ConfigError::InvalidPeriodName));
}

#[test]
fn initialize_capacity_checked_before_period_name() {
    let r = RollingSeries::initialize(0, "week", 1_700_000_000);
    assert_eq!(r.err(), Some(ConfigError::InvalidCapacity));
}

#[test]
fn period_names_parse() {
    assert_eq!(Period::from_name("second"), Some(Period::Second));
    assert_eq!(Period::from_name("minute"), Some(Period::Minute));
    assert_eq!(Period::from_name("hour"), Some(Period::Hour));
    assert_eq!(Period::from_name("day"), Some(Period::Day));
    assert_eq!(Period::from_name("month"), None);
}

#[test]
fn initialize_builds_aligned_ascending_buckets() {
    let now: i64 = 1_700_000_123;
    let s = RollingSeries::initialize(5, "hour", now).unwrap();
    let buckets = s.buckets();
    assert_eq!(buckets.len(), 5);
    for w in buckets.windows(2) {
        assert_eq!(w[1] - w[0], 3600);
    }
    for b in &buckets {
        assert_eq!(b % 3600, 0);
    }
    assert_eq!(*buckets.last().unwrap(), now - now % 3600);
    for e in &s.entries {
        assert_eq!(e.sample.estimate, None);
        assert_eq!(e.sample.fetched, None);
    }
}

#[test]
fn buckets_follow_the_period_stride() {
    let now: i64 = 1_700_000_123;
    let by_minute = RollingSeries::initialize(4, "minute", now).unwrap().buckets();
    for w in by_minute.windows(2) {
        assert_eq!(w[1] - w[0], 60);
    }
    assert_eq!(*by_minute.last().unwrap(), now - now % 60);
    let by_day = RollingSeries::initialize(4, "day", now).unwrap().buckets();
    for w in by_day.windows(2) {
        assert_eq!(w[1] - w[0], 86400);
    }
    assert_eq!(*by_day.last().unwrap(), now - now % 86400);
    let by_second = RollingSeries::initialize(4, "second", now).unwrap().buckets();
    assert_eq!(by_second, vec![now - 3, now - 2, now - 1, now]);
}

#[test]
fn merge_updates_existing_bucket_and_inserts_new() {
    let mut s = RollingSeries::initialize(10, "second", 1000).unwrap();
    // bucket 995 exists (buckets 991..=1000); bucket 1005 does not
    s.merge_sample(SampleField::Fetched, 995, 250);
    assert_eq!(s.entries.len(), 10);
    assert_eq!(fetched(&s, 995), Some(250));
    s.merge_sample(SampleField::Fetched, 1005, 300);
    assert_eq!(s.entries.len(), 11);
    assert_eq!(fetched(&s, 1005), Some(300));
}

#[test]
fn merge_last_write_wins_per_field() {
    let mut s = RollingSeries::initialize(5, "second", 1000).unwrap();
    s.merge_sample(SampleField::Fetched, 998, 100);
    s.merge_sample(SampleField::Fetched, 998, 200);
    assert_eq!(fetched(&s, 998), Some(200));
}

#[test]
fn merge_rounds_timestamps_to_buckets() {
    let mut s = RollingSeries::initialize(3, "minute", 6000).unwrap();
    // 6000 is minute-aligned; timestamp 5990 falls in bucket 5940
    s.merge_sample(SampleField::Fetched, 5990, 42);
    assert_eq!(fetched(&s, 5940), Some(42));
}

#[test]
fn merge_twice_same_sample_is_idempotent() {
    let mut a = RollingSeries::initialize(10, "second", 1000).unwrap();
    let mut b = RollingSeries::initialize(10, "second", 1000).unwrap();
    a.merge_sample(SampleField::Fetched, 997, 123);
    b.merge_sample(SampleField::Fetched, 997, 123);
    b.merge_sample(SampleField::Fetched, 997, 123);
    assert_eq!(a.buckets(), b.buckets());
    for (x, y) in a.entries.iter().zip(b.entries.iter()) {
        assert_eq!(x.bucket, y.bucket);
        assert_eq!(x.sample.estimate, y.sample.estimate);
        assert_eq!(x.sample.fetched, y.sample.fetched);
    }
}

#[test]
fn merge_one_field_never_clears_the_other() {
    let mut s = RollingSeries::initialize(10, "second", 1000).unwrap();
    s.merge_sample(SampleField::Estimate, 996, 111);
    assert_eq!(estimate(&s, 996), Some(111));
    s.merge_sample(SampleField::Fetched, 996, 222);
    assert_eq!(estimate(&s, 996), Some(111));
    assert_eq!(fetched(&s, 996), Some(222));
    s.merge_sample(SampleField::Estimate, 996, 333);
    assert_eq!(estimate(&s, 996), Some(333));
    assert_eq!(fetched(&s, 996), Some(222));
}

#[test]
fn sample_accessors_write_only_their_field() {
    let mut p = PriceSample::empty();
    p.set_field(SampleField::Fetched, 10);
    assert_eq!(p.fetched, Some(10));
    assert_eq!(p.estimate, None);
    p.set_field(SampleField::Estimate, 20);
    assert_eq!(p.fetched, Some(10));
    assert_eq!(p.estimate, Some(20));
}

#[test]
fn trim_keeps_only_newest_buckets() {
    let mut s = RollingSeries::initialize(3, "second", 1000).unwrap();
    // buckets 998, 999, 1000; add 1001 and 1002, exceeding the capacity
    s.merge_sample(SampleField::Fetched, 1001, 7);
    s.merge_sample(SampleField::Fetched, 1002, 8);
    assert_eq!(s.entries.len(), 5);
    s.trim();
    assert_eq!(s.buckets(), vec![1000, 1001, 1002]);
    assert_eq!(fetched(&s, 1002), Some(8));
}

#[test]
fn merge_and_trim_never_exceeds_capacity() {
    let mut s = RollingSeries::initialize(4, "second", 1000).unwrap();
    let batch: Vec<RawSample> = (0..50)
        .map(|k| RawSample { timestamp: 1100 + k, price: 10 + k })
        .collect();
    s.merge_and_trim(SampleField::Fetched, &batch);
    assert_eq!(s.entries.len(), 4);
    assert_eq!(s.buckets(), vec![1146, 1147, 1148, 1149]);
    assert_eq!(fetched(&s, 1149), Some(59));
}

#[test]
fn snapshot_order_invariant_to_insertion_order() {
    let mut a = RollingSeries::initialize(10, "second", 1000).unwrap();
    let mut b = RollingSeries::initialize(10, "second", 1000).unwrap();
    let batch_fwd: Vec<RawSample> = vec![
        RawSample { timestamp: 1003, price: 30 },
        RawSample { timestamp: 1001, price: 10 },
        RawSample { timestamp: 1005, price: 50 },
    ];
    let batch_rev: Vec<RawSample> = vec![
        RawSample { timestamp: 1005, price: 50 },
        RawSample { timestamp: 1003, price: 30 },
        RawSample { timestamp: 1001, price: 10 },
    ];
    a.merge_and_trim(SampleField::Fetched, &batch_fwd);
    b.merge_and_trim(SampleField::Fetched, &batch_rev);
    let ba = a.buckets();
    let bb = b.buckets();
    assert_eq!(ba, bb);
    for w in ba.windows(2) {
        assert!(w[0] < w[1]);
    }
    for (x, y) in a.entries.iter().zip(b.entries.iter()) {
        assert_eq!(x.sample.fetched, y.sample.fetched);
    }
}

#[test]
fn snapshot_returns_samples_in_bucket_order() {
    let mut s = RollingSeries::initialize(3, "second", 1000).unwrap();
    s.merge_sample(SampleField::Fetched, 999, 5);
    let snap = s.snapshot();
    assert_eq!(snap.len(), 3);
    assert_eq!(snap[0].fetched, None);
    assert_eq!(snap[1].fetched, Some(5));
    assert_eq!(snap[2].fetched, None);
}
