//! The rolling window store: a bounded, ordered mapping from period-aligned
//! time buckets to price samples.
//!
//! Buckets are timestamps (seconds) rounded down to the configured period.
//! The entries are kept strictly ascending by bucket; `merge` upserts samples
//! field by field and `trim` evicts the oldest buckets once the store exceeds
//! its capacity, so that `len <= capacity` holds between cycles.

use vstd::prelude::*;
use vstd::arithmetic::div_mod::{
    lemma_fundamental_div_mod, lemma_mod_decreases, lemma_mod_multiples_basic,
    lemma_mod_multiples_vanish,
};
use crate::sample::{price_ok, PriceSample, SampleField};

verus! {

/// Exclusive upper bound on the number of buckets a store may be configured
/// to hold.
pub const MAX_CAPACITY: usize = 741;

/// The four recognized period granularities.
#[derive(Clone, Copy, Debug, PartialEq, Eq, Structural)]
pub enum Period {
    Second,
    Minute,
    Hour,
    Day,
}

/// A raw (timestamp, price) pair as handed in by the data source.
#[derive(Clone, Copy, Debug)]
pub struct RawSample {
    pub timestamp: i64,
    pub price: i64,
}

/// A bucket together with its sample.
#[derive(Clone, Copy, Debug)]
pub struct Entry {
    pub bucket: i64,
    pub sample: PriceSample,
}

/// Why a store could not be configured.
#[derive(Clone, Copy, Debug, PartialEq, Eq, Structural)]
pub enum ConfigError {
    /// The requested capacity is zero or at least `MAX_CAPACITY`.
    InvalidCapacity,
    /// The period name is none of "second", "minute", "hour", "day".
    InvalidPeriodName,
}

impl Period {
    /// Length of one period, in seconds.
    pub open spec fn seconds_spec(self) -> int {
        match self {
            Period::Second => 1,
            Period::Minute => 60,
            Period::Hour => 3600,
            Period::Day => 86400,
        }
    }

    pub fn seconds(&self) -> (s: i64)
        ensures
            s == self.seconds_spec(),
            1 <= s <= 86400,
    {
        match self {
            Period::Second => 1,
            Period::Minute => 60,
            Period::Hour => 3600,
            Period::Day => 86400,
        }
    }

    /// Which period, if any, a configuration name denotes.
    pub open spec fn of_name(s: Seq<char>) -> Option<Period> {
        if s == "second"@ {
            Some(Period::Second)
        } else if s == "minute"@ {
            Some(Period::Minute)
        } else if s == "hour"@ {
            Some(Period::Hour)
        } else if s == "day"@ {
            Some(Period::Day)
        } else {
            None
        }
    }

    pub fn from_name(name: &str) -> (r: Option<Period>)
        ensures
            r == Period::of_name(name@),
    {
        if str_eq(name, "second") {
            Some(Period::Second)
        } else if str_eq(name, "minute") {
            Some(Period::Minute)
        } else if str_eq(name, "hour") {
            Some(Period::Hour)
        } else if str_eq(name, "day") {
            Some(Period::Day)
        } else {
            None
        }
    }
}

/// Character-wise string equality.
fn str_eq(a: &str, b: &str) -> (r: bool)
    ensures
        r == (a@ == b@),
{
    let n = a.unicode_len();
    if n != b.unicode_len() {
        proof {
            assert(a@ != b@) by {
                if a@ == b@ {
                    assert(a@.len() == b@.len());
                }
            }
        }
        return false;
    }
    let mut i: usize = 0;
    while i < n
        invariant
            0 <= i <= n,
            n == a@.len(),
            n == b@.len(),
            forall|j: int| 0 <= j < i ==> a@[j] == b@[j],
        decreases n - i,
    {
        if a.get_char(i) != b.get_char(i) {
            return false;
        }
        i += 1;
    }
    proof {
        assert(a@ =~= b@);
    }
    true
}

/// A timestamp rounded down to the start of its period.
pub open spec fn round_spec(t: int, secs: int) -> int {
    t - t % secs
}

/// Whether a bucket sits on a period boundary.
pub open spec fn aligned(b: int, secs: int) -> bool {
    b % secs == 0
}

/// Rounds a timestamp down to its bucket for the given period.
pub fn round_to_period(t: i64, period: &Period) -> (b: i64)
    requires
        0 <= t,
    ensures
        b == round_spec(t as int, period.seconds_spec()),
        0 <= b <= t,
        aligned(b as int, period.seconds_spec()),
{
    let s = period.seconds();
    let r = ((t as u64) % (s as u64)) as i64;
    proof {
        lemma_mod_decreases(t as nat, s as nat);
        lemma_fundamental_div_mod(t as int, s as int);
        lemma_mod_multiples_basic(t as int / s as int, s as int);
    }
    t - r
}

/// Buckets strictly ascending.
pub open spec fn ordered(s: Seq<Entry>) -> bool {
    forall|i: int, j: int| 0 <= i < j < s.len() ==> s[i].bucket < s[j].bucket
}

/// Every bucket aligned to the period and every sample well formed.
pub open spec fn entries_wf(s: Seq<Entry>, secs: int) -> bool {
    &&& ordered(s)
    &&& forall|i: int| 0 <= i < s.len() ==> aligned((#[trigger] s[i]).bucket as int, secs)
    &&& forall|i: int| 0 <= i < s.len() ==> (#[trigger] s[i]).sample.wf()
}

/// The sample stored under a bucket, if any.
pub open spec fn sample_at(s: Seq<Entry>, b: i64) -> Option<PriceSample>
    decreases s.len(),
{
    if s.len() == 0 {
        None
    } else if s[0].bucket == b {
        Some(s[0].sample)
    } else {
        sample_at(s.drop_first(), b)
    }
}

/// Upsert into a bucket-sorted sequence: if the bucket exists, only the given
/// field of its sample is overwritten; otherwise a fresh sample with only
/// that field set is inserted at the bucket's sorted position.
pub open spec fn upsert(s: Seq<Entry>, b: i64, field: SampleField, price: i64) -> Seq<Entry>
    decreases s.len(),
{
    let fresh = Entry { bucket: b, sample: PriceSample::spec_empty().with_field(field, price) };
    if s.len() == 0 {
        seq![fresh]
    } else if s[0].bucket < b {
        seq![s[0]] + upsert(s.drop_first(), b, field, price)
    } else if s[0].bucket == b {
        s.update(0, Entry { bucket: b, sample: s[0].sample.with_field(field, price) })
    } else {
        seq![fresh] + s
    }
}

/// The store after a whole batch is merged, sample by sample, in batch order.
pub open spec fn merged(s: Seq<Entry>, secs: int, field: SampleField, batch: Seq<RawSample>) -> Seq<Entry>
    decreases batch.len(),
{
    if batch.len() == 0 {
        s
    } else {
        let prev = merged(s, secs, field, batch.drop_last());
        let last = batch.last();
        upsert(prev, round_spec(last.timestamp as int, secs) as i64, field, last.price)
    }
}

/// The store after capacity enforcement: the oldest entries beyond `cap`
/// are dropped.
pub open spec fn trimmed(s: Seq<Entry>, cap: int) -> Seq<Entry> {
    if s.len() > cap {
        s.skip(s.len() - cap)
    } else {
        s
    }
}

/// The ascending sequence of samples the engine consumes.
pub open spec fn snapshot_spec(s: Seq<Entry>) -> Seq<PriceSample> {
    s.map_values(|e: Entry| e.sample)
}

/// The bounded, ordered series of price samples.
pub struct RollingSeries {
    pub entries: Vec<Entry>,
    pub capacity: usize,
    pub period: Period,
}

impl View for RollingSeries {
    type V = Seq<Entry>;

    open spec fn view(&self) -> Seq<Entry> {
        self.entries@
    }
}

impl RollingSeries {
    /// Everything the store maintains except the capacity bound, which merge
    /// may exceed until the following trim.
    pub open spec fn wf_unbounded(self) -> bool {
        &&& entries_wf(self@, self.period.seconds_spec())
        &&& 1 <= self.capacity < MAX_CAPACITY
        &&& 1 <= self@.len()
    }

    /// The store's invariant between cycles.
    pub open spec fn wf(self) -> bool {
        &&& self.wf_unbounded()
        &&& self@.len() <= self.capacity
    }

    /// Builds the store: `capacity` period-aligned buckets walking backward
    /// from `now`, all samples empty. Rejects a capacity of zero or of
    /// `MAX_CAPACITY` or more, and an unrecognized period name.
    pub fn initialize(capacity: usize, period_name: &str, now: i64) -> (r: Result<RollingSeries, ConfigError>)
        requires
            0 <= now,
        ensures
            r is Ok <==> (1 <= capacity < MAX_CAPACITY && Period::of_name(period_name@) is Some),
            r == Result::<RollingSeries, ConfigError>::Err(ConfigError::InvalidCapacity) <==> (capacity == 0
                || capacity >= MAX_CAPACITY),
            r == Result::<RollingSeries, ConfigError>::Err(ConfigError::InvalidPeriodName) <==> (1 <= capacity
                < MAX_CAPACITY && Period::of_name(period_name@) is None),
            r is Ok ==> ({
                let s = r->Ok_0;
                &&& s.wf()
                &&& s.capacity == capacity
                &&& Some(s.period) == Period::of_name(period_name@)
                &&& s@.len() == capacity
                &&& forall|k: int|
                    0 <= k < capacity ==> (#[trigger] s@[k]).bucket == round_spec(
                        now as int,
                        s.period.seconds_spec(),
                    ) - (capacity - 1 - k) * s.period.seconds_spec()
                &&& forall|k: int| 0 <= k < capacity ==> (#[trigger] s@[k]).sample == PriceSample::spec_empty()
            }),
    {
        if capacity == 0 || capacity >= MAX_CAPACITY {
            return Err(ConfigError::InvalidCapacity);
        }
        let period = match Period::from_name(period_name) {
            Some(p) => p,
            None => {
                return Err(ConfigError::InvalidPeriodName);
            }
        };
        let secs = period.seconds();
        let base = round_to_period(now, &period);
        let mut entries: Vec<Entry> = Vec::new();
        let mut k: usize = 0;
        while k < capacity
            invariant
                0 <= k <= capacity,
                1 <= capacity < MAX_CAPACITY,
                1 <= secs <= 86400,
                secs == period.seconds_spec(),
                0 <= base <= i64::MAX,
                aligned(base as int, secs as int),
                entries@.len() == k,
                forall|j: int|
                    0 <= j < k ==> (#[trigger] entries@[j]).bucket == base - (capacity - 1 - j) * secs,
                forall|j: int| 0 <= j < k ==> (#[trigger] entries@[j]).sample == PriceSample::spec_empty(),
            decreases capacity - k,
        {
            let back = (capacity - 1 - k) as i64;
            proof {
                assert(0 <= back * secs <= 740 * 86400) by (nonlinear_arith)
                    requires
                        0 <= back <= 740,
                        1 <= secs <= 86400,
                ;
            }
            let bucket = base - back * secs;
            entries.push(Entry { bucket, sample: PriceSample::empty() });
            k += 1;
        }
        let series = RollingSeries { entries, capacity, period };
        proof {
            assert forall|i: int, j: int| 0 <= i < j < series@.len() implies series@[i].bucket
                < series@[j].bucket by {
                assert((capacity - 1 - i) * secs > (capacity - 1 - j) * secs) by (nonlinear_arith)
                    requires
                        0 <= j < capacity as int,
                        0 <= i < j,
                        1 <= secs,
                ;
            }
            assert forall|i: int| 0 <= i < series@.len() implies aligned(
                (#[trigger] series@[i]).bucket as int,
                secs as int,
            ) by {
                lemma_mod_multiples_vanish(-(capacity - 1 - i), base as int, secs as int);
            }
        }
        Ok(series)
    }

    /// Merges one (timestamp, price) pair into the selected field of its
    /// bucket's sample: an existing bucket keeps the other field untouched, a
    /// new bucket starts from an empty sample. May exceed the capacity until
    /// the following `trim`.
    pub fn merge_sample(&mut self, field: SampleField, timestamp: i64, price: i64)
        requires
            old(self).wf_unbounded(),
            0 <= timestamp,
            price_ok(price),
        ensures
            final(self)@ == upsert(
                old(self)@,
                round_spec(timestamp as int, old(self).period.seconds_spec()) as i64,
                field,
                price,
            ),
            final(self).capacity == old(self).capacity,
            final(self).period == old(self).period,
            final(self).wf_unbounded(),
            old(self)@.len() <= final(self)@.len() <= old(self)@.len() + 1,
    {
        let ghost s0 = old(self)@;
        let ghost secs = old(self).period.seconds_spec();
        let bucket = round_to_period(timestamp, &self.period);
        let n = self.entries.len();
        let mut i: usize = 0;
        while i < n && self.entries[i].bucket < bucket
            invariant
                0 <= i <= n,
                n == self.entries.len(),
                self.entries@ == s0,
                forall|j: int| 0 <= j < i ==> s0[j].bucket < bucket,
            decreases n - i,
        {
            i += 1;
        }
        proof {
            lemma_upsert_at(s0, bucket, field, price, i as int);
        }
        let fresh_needed = if i < n {
            self.entries[i].bucket != bucket
        } else {
            true
        };
        if fresh_needed {
            let mut fresh = PriceSample::empty();
            fresh.set_field(field, price);
            self.entries.insert(i, Entry { bucket, sample: fresh });
            proof {
                let e = Entry { bucket, sample: PriceSample::spec_empty().with_field(field, price) };
                assert(self.entries@ =~= s0.take(i as int) + seq![e] + s0.skip(i as int));
                assert forall|p: int, q: int|
                    0 <= p < q < self.entries@.len() implies self.entries@[p].bucket
                    < self.entries@[q].bucket by {
                    if p < i && q > i {
                        assert(s0[p].bucket < bucket);
                        assert(s0[q - 1].bucket >= bucket && s0[q - 1].bucket != bucket);
                    } else if q == i {
                        assert(s0[p].bucket < bucket);
                    } else if p == i {
                        assert(s0[q - 1].bucket >= bucket && s0[q - 1].bucket != bucket);
                    }
                }
                assert forall|j: int| 0 <= j < self.entries@.len() implies aligned(
                    (#[trigger] self.entries@[j]).bucket as int,
                    secs,
                ) && self.entries@[j].sample.wf() by {
                    if j < i {
                        assert(self.entries@[j] == s0[j]);
                    } else if j > i {
                        assert(self.entries@[j] == s0[j - 1]);
                    }
                }
            }
        } else {
            let mut updated = self.entries[i].sample;
            updated.set_field(field, price);
            self.entries[i] = Entry { bucket, sample: updated };
            proof {
                assert(self.entries@ =~= s0.update(
                    i as int,
                    Entry { bucket, sample: s0[i as int].sample.with_field(field, price) },
                ));
                assert forall|p: int, q: int|
                    0 <= p < q < self.entries@.len() implies self.entries@[p].bucket
                    < self.entries@[q].bucket by {
                    assert(self.entries@[p].bucket == s0[p].bucket);
                    assert(self.entries@[q].bucket == s0[q].bucket);
                }
                assert forall|j: int| 0 <= j < self.entries@.len() implies aligned(
                    (#[trigger] self.entries@[j]).bucket as int,
                    secs,
                ) && self.entries@[j].sample.wf() by {
                    if j != i {
                        assert(self.entries@[j] == s0[j]);
                    } else {
                        assert(self.entries@[j].bucket == s0[j].bucket);
                    }
                }
            }
        }
    }

    /// Merges a whole batch, in batch order, into the selected field.
    pub fn merge(&mut self, field: SampleField, batch: &Vec<RawSample>)
        requires
            old(self).wf_unbounded(),
            forall|k: int|
                0 <= k < batch@.len() ==> 0 <= (#[trigger] batch@[k]).timestamp && price_ok(
                    batch@[k].price,
                ),
        ensures
            final(self)@ == merged(old(self)@, old(self).period.seconds_spec(), field, batch@),
            final(self).capacity == old(self).capacity,
            final(self).period == old(self).period,
            final(self).wf_unbounded(),
            final(self)@.len() <= old(self)@.len() + batch@.len(),
    {
        let ghost s0 = old(self)@;
        let ghost secs = old(self).period.seconds_spec();
        let n = batch.len();
        let mut i: usize = 0;
        while i < n
            invariant
                0 <= i <= n,
                n == batch@.len(),
                forall|k: int|
                    0 <= k < batch@.len() ==> 0 <= (#[trigger] batch@[k]).timestamp && price_ok(
                        batch@[k].price,
                    ),
                self.wf_unbounded(),
                self.capacity == old(self).capacity,
                self.period == old(self).period,
                secs == self.period.seconds_spec(),
                self@ == merged(s0, secs, field, batch@.take(i as int)),
                self@.len() <= s0.len() + i,
            decreases n - i,
        {
            let sample = batch[i];
            self.merge_sample(field, sample.timestamp, sample.price);
            proof {
                let t = batch@.take(i + 1);
                assert(t.drop_last() =~= batch@.take(i as int));
                assert(t.last() == batch@[i as int]);
                assert(self@ == merged(s0, secs, field, t));
            }
            i += 1;
        }
        proof {
            assert(batch@.take(n as int) =~= batch@);
        }
    }

    /// Evicts the oldest buckets until at most `capacity` remain.
    pub fn trim(&mut self)
        requires
            old(self).wf_unbounded(),
        ensures
            final(self)@ == trimmed(old(self)@, old(self).capacity as int),
            final(self).capacity == old(self).capacity,
            final(self).period == old(self).period,
            final(self).wf(),
            final(self)@.len() <= old(self).capacity,
    {
        let ghost s0 = old(self)@;
        let ghost mut removed: int = 0;
        proof {
            assert(s0.skip(0) =~= s0);
        }
        let n = self.entries.len();
        if n > self.capacity {
            let excess = n - self.capacity;
            let mut r: usize = 0;
            while r < excess
                invariant
                    0 <= r <= excess,
                    excess == s0.len() - old(self).capacity,
                    self.capacity == old(self).capacity,
                    self.period == old(self).period,
                    1 <= self.capacity,
                    self.entries@ == s0.skip(r as int),
                decreases excess - r,
            {
                self.entries.remove(0);
                r += 1;
                proof {
                    assert(self.entries@ =~= s0.skip(r as int));
                }
            }
            proof {
                removed = excess as int;
            }
        }
        proof {
            assert(self.entries@ == s0.skip(removed));
            assert(self@ =~= trimmed(s0, self.capacity as int));
            assert forall|p: int, q: int| 0 <= p < q < self@.len() implies self@[p].bucket
                < self@[q].bucket by {
                assert(self@[p] == s0[removed + p]);
                assert(self@[q] == s0[removed + q]);
            }
            assert forall|i: int| 0 <= i < self@.len() implies aligned(
                (#[trigger] self@[i]).bucket as int,
                self.period.seconds_spec(),
            ) by {
                assert(self@[i] == s0[removed + i]);
            }
            assert forall|i: int| 0 <= i < self@.len() implies (#[trigger] self@[i]).sample.wf() by {
                assert(self@[i] == s0[removed + i]);
            }
        }
    }

    /// One write cycle over the store: merge the batch, then enforce the
    /// capacity, so that the invariant `len <= capacity` holds again. The
    /// store never holds more than `capacity` buckets once this returns.
    pub fn merge_and_trim(&mut self, field: SampleField, batch: &Vec<RawSample>)
        requires
            old(self).wf(),
            forall|k: int|
                0 <= k < batch@.len() ==> 0 <= (#[trigger] batch@[k]).timestamp && price_ok(
                    batch@[k].price,
                ),
        ensures
            final(self)@ == trimmed(
                merged(old(self)@, old(self).period.seconds_spec(), field, batch@),
                old(self).capacity as int,
            ),
            final(self).capacity == old(self).capacity,
            final(self).period == old(self).period,
            final(self).wf(),
            final(self)@.len() <= old(self).capacity,
    {
        self.merge(field, batch);
        self.trim();
    }

    /// The ascending-by-bucket sequence of samples, for the engine.
    pub fn snapshot(&self) -> (v: Vec<PriceSample>)
        ensures
            v@ == snapshot_spec(self@),
    {
        let mut v: Vec<PriceSample> = Vec::new();
        let n = self.entries.len();
        let mut i: usize = 0;
        while i < n
            invariant
                0 <= i <= n,
                n == self.entries@.len(),
                v@.len() == i,
                forall|j: int| 0 <= j < i ==> v@[j] == (#[trigger] self.entries@[j]).sample,
            decreases n - i,
        {
            v.push(self.entries[i].sample);
            i += 1;
        }
        proof {
            assert(v@ =~= snapshot_spec(self@));
        }
        v
    }

    /// The ascending sequence of bucket keys.
    pub fn buckets(&self) -> (v: Vec<i64>)
        ensures
            v@ == self@.map_values(|e: Entry| e.bucket),
    {
        let mut v: Vec<i64> = Vec::new();
        let n = self.entries.len();
        let mut i: usize = 0;
        while i < n
            invariant
                0 <= i <= n,
                n == self.entries@.len(),
                v@.len() == i,
                forall|j: int| 0 <= j < i ==> v@[j] == (#[trigger] self.entries@[j]).bucket,
            decreases n - i,
        {
            v.push(self.entries[i].bucket);
            i += 1;
        }
        proof {
            assert(v@ =~= self@.map_values(|e: Entry| e.bucket));
        }
        v
    }
}

/// A bucket no entry carries finds no sample.
proof fn lemma_sample_at_absent(s: Seq<Entry>, b: i64)
    requires
        forall|i: int| 0 <= i < s.len() ==> (#[trigger] s[i]).bucket != b,
    ensures
        sample_at(s, b) is None,
    decreases s.len(),
{
    if s.len() > 0 {
        assert forall|i: int| 0 <= i < s.drop_first().len() implies (#[trigger] s.drop_first()[i]).bucket
            != b by {
            assert(s.drop_first()[i] == s[i + 1]);
        }
        lemma_sample_at_absent(s.drop_first(), b);
    }
}

/// Merging keeps the store well formed: buckets stay strictly ascending and
/// period-aligned whatever bucket is upserted, and the store grows by at most
/// one entry. In particular the ascending order of the snapshot does not
/// depend on where in the batch a sample stood.
pub proof fn lemma_upsert_wf(s: Seq<Entry>, secs: int, b: i64, field: SampleField, price: i64)
    requires
        entries_wf(s, secs),
        aligned(b as int, secs),
        price_ok(price),
    ensures
        entries_wf(upsert(s, b, field, price), secs),
        s.len() <= upsert(s, b, field, price).len() <= s.len() + 1,
        forall|i: int|
            0 <= i < upsert(s, b, field, price).len() ==> ((#[trigger] upsert(s, b, field, price)[i]).bucket
                == b || exists|j: int| 0 <= j < s.len() && s[j].bucket == upsert(s, b, field, price)[i].bucket),
    decreases s.len(),
{
    let u = upsert(s, b, field, price);
    let fresh = Entry { bucket: b, sample: PriceSample::spec_empty().with_field(field, price) };
    if s.len() == 0 {
        assert(u =~= seq![fresh]);
    } else if s[0].bucket < b {
        let d = s.drop_first();
        assert(entries_wf(d, secs)) by {
            assert forall|p: int, q: int| 0 <= p < q < d.len() implies d[p].bucket < d[q].bucket by {
                assert(d[p] == s[p + 1]);
                assert(d[q] == s[q + 1]);
            }
            assert forall|i: int| 0 <= i < d.len() implies aligned(
                (#[trigger] d[i]).bucket as int,
                secs,
            ) && d[i].sample.wf() by {
                assert(d[i] == s[i + 1]);
            }
        }
        lemma_upsert_wf(d, secs, b, field, price);
        let r = upsert(d, b, field, price);
        assert(u == seq![s[0]] + r);
        assert forall|i: int| 0 <= i < u.len() implies (#[trigger] u[i]).bucket == b || exists|j: int|
            0 <= j < s.len() && s[j].bucket == u[i].bucket by {
            if i == 0 {
                assert(s[0].bucket == u[0].bucket);
            } else {
                assert(u[i] == r[i - 1]);
                if r[i - 1].bucket != b {
                    let j = choose|j: int| 0 <= j < d.len() && d[j].bucket == r[i - 1].bucket;
                    assert(s[j + 1].bucket == u[i].bucket);
                }
            }
        }
        assert forall|p: int, q: int| 0 <= p < q < u.len() implies u[p].bucket < u[q].bucket by {
            if p == 0 {
                assert(u[q] == r[q - 1]);
                if r[q - 1].bucket != b {
                    let j = choose|j: int| 0 <= j < d.len() && d[j].bucket == r[q - 1].bucket;
                    assert(s[0].bucket < s[j + 1].bucket);
                }
            } else {
                assert(u[p] == r[p - 1]);
                assert(u[q] == r[q - 1]);
            }
        }
        assert forall|i: int| 0 <= i < u.len() implies aligned(
            (#[trigger] u[i]).bucket as int,
            secs,
        ) && u[i].sample.wf() by {
            if i > 0 {
                assert(u[i] == r[i - 1]);
            }
        }
    } else if s[0].bucket == b {
        assert forall|i: int| 0 <= i < u.len() implies aligned(
            (#[trigger] u[i]).bucket as int,
            secs,
        ) && u[i].sample.wf() by {
            if i != 0 {
                assert(u[i] == s[i]);
            } else {
                assert(u[0].bucket == s[0].bucket);
            }
        }
        assert forall|p: int, q: int| 0 <= p < q < u.len() implies u[p].bucket < u[q].bucket by {
            assert(u[p].bucket == s[p].bucket);
            assert(u[q].bucket == s[q].bucket);
        }
        assert forall|i: int| 0 <= i < u.len() implies (#[trigger] u[i]).bucket == b || exists|j: int|
            0 <= j < s.len() && s[j].bucket == u[i].bucket by {
            assert(s[i].bucket == u[i].bucket);
        }
    } else {
        assert(u == seq![fresh] + s);
        assert forall|i: int| 0 <= i < u.len() implies (#[trigger] u[i]).bucket == b || exists|j: int|
            0 <= j < s.len() && s[j].bucket == u[i].bucket by {
            if i > 0 {
                assert(s[i - 1].bucket == u[i].bucket);
            }
        }
        assert forall|p: int, q: int| 0 <= p < q < u.len() implies u[p].bucket < u[q].bucket by {
            if p == 0 {
                assert(u[q] == s[q - 1]);
                assert(s[0].bucket <= s[q - 1].bucket);
            } else {
                assert(u[p] == s[p - 1]);
                assert(u[q] == s[q - 1]);
            }
        }
        assert forall|i: int| 0 <= i < u.len() implies aligned(
            (#[trigger] u[i]).bucket as int,
            secs,
        ) && u[i].sample.wf() by {
            if i > 0 {
                assert(u[i] == s[i - 1]);
            }
        }
    }
}

/// Rounding always lands on a period boundary.
pub proof fn lemma_round_aligned(t: int, secs: int)
    requires
        1 <= secs,
        0 <= t,
    ensures
        aligned(round_spec(t, secs), secs),
        0 <= round_spec(t, secs) <= t,
{
    lemma_mod_decreases(t as nat, secs as nat);
    lemma_fundamental_div_mod(t, secs);
    lemma_mod_multiples_basic(t / secs, secs);
}

/// However a batch is ordered, merging it leaves the store's buckets strictly
/// ascending (and aligned, with well-formed samples): the ascending order of
/// the snapshot is invariant to the insertion order of samples during merge.
pub proof fn lemma_merged_ascending(s: Seq<Entry>, secs: int, field: SampleField, batch: Seq<RawSample>)
    requires
        entries_wf(s, secs),
        1 <= secs,
        forall|k: int|
            0 <= k < batch.len() ==> 0 <= (#[trigger] batch[k]).timestamp && price_ok(batch[k].price),
    ensures
        entries_wf(merged(s, secs, field, batch), secs),
        merged(s, secs, field, batch).len() <= s.len() + batch.len(),
    decreases batch.len(),
{
    if batch.len() > 0 {
        assert forall|k: int| 0 <= k < batch.drop_last().len() implies 0 <= (#[trigger] batch.drop_last()[k]).timestamp
            && price_ok(batch.drop_last()[k].price) by {
            assert(batch.drop_last()[k] == batch[k]);
        }
        lemma_merged_ascending(s, secs, field, batch.drop_last());
        let last = batch.last();
        lemma_round_aligned(last.timestamp as int, secs);
        let b = round_spec(last.timestamp as int, secs) as i64;
        assert(aligned(b as int, secs));
        lemma_upsert_wf(merged(s, secs, field, batch.drop_last()), secs, b, field, last.price);
    }
}

/// After a merge and the trim that follows it, the store holds at most `cap`
/// buckets, for every capacity and every batch.
pub proof fn lemma_capacity_never_exceeded(
    s: Seq<Entry>,
    secs: int,
    field: SampleField,
    batch: Seq<RawSample>,
    cap: int,
)
    requires
        0 <= cap,
    ensures
        trimmed(merged(s, secs, field, batch), cap).len() <= cap,
{
}

/// What one merged sample does to the store, bucket by bucket: the written
/// bucket carries its old sample (or an empty one, if the bucket is new) with
/// only the written field overwritten, and every other bucket is untouched.
pub proof fn lemma_upsert_sample_at(s: Seq<Entry>, b: i64, field: SampleField, price: i64, q: i64)
    requires
        ordered(s),
    ensures
        sample_at(upsert(s, b, field, price), b) == Some(
            (match sample_at(s, b) {
                Some(prev) => prev.with_field(field, price),
                None => PriceSample::spec_empty().with_field(field, price),
            }),
        ),
        q != b ==> sample_at(upsert(s, b, field, price), q) == sample_at(s, q),
    decreases s.len(),
{
    let u = upsert(s, b, field, price);
    let fresh = Entry { bucket: b, sample: PriceSample::spec_empty().with_field(field, price) };
    if s.len() == 0 {
        assert(u == seq![fresh]);
        assert(u.drop_first() =~= Seq::<Entry>::empty());
    } else if s[0].bucket < b {
        let d = s.drop_first();
        assert(ordered(d)) by {
            assert forall|p: int, j: int| 0 <= p < j < d.len() implies d[p].bucket < d[j].bucket by {
                assert(d[p] == s[p + 1]);
                assert(d[j] == s[j + 1]);
            }
        }
        lemma_upsert_sample_at(d, b, field, price, q);
        assert(u == seq![s[0]] + upsert(d, b, field, price));
        assert(u.drop_first() =~= upsert(d, b, field, price));
        assert(u[0] == s[0]);
    } else if s[0].bucket == b {
        let e = Entry { bucket: b, sample: s[0].sample.with_field(field, price) };
        assert(u == s.update(0, e));
        assert(u[0] == e);
        if q != b {
            assert(u.drop_first() =~= s.drop_first());
        }
    } else {
        assert(u == seq![fresh] + s);
        assert(u[0] == fresh);
        assert forall|i: int| 0 <= i < s.len() implies (#[trigger] s[i]).bucket != b by {
            if i > 0 {
                assert(s[0].bucket < s[i].bucket);
            }
        }
        lemma_sample_at_absent(s, b);
        if q != b {
            assert(u.drop_first() =~= s);
        }
    }
    if q != b {
        assert(sample_at(u, q) =~= sample_at(s, q));
    }
}

/// Merging the same (bucket, field, price) twice leaves the store exactly as
/// one merge does: merge is idempotent per field.
pub proof fn lemma_merge_idempotent(s: Seq<Entry>, b: i64, field: SampleField, price: i64)
    requires
        ordered(s),
    ensures
        upsert(upsert(s, b, field, price), b, field, price) == upsert(s, b, field, price),
    decreases s.len(),
{
    let u = upsert(s, b, field, price);
    let fresh = Entry { bucket: b, sample: PriceSample::spec_empty().with_field(field, price) };
    if s.len() == 0 {
        assert(u == seq![fresh]);
        assert(upsert(u, b, field, price) =~= u);
    } else if s[0].bucket < b {
        let d = s.drop_first();
        assert(ordered(d)) by {
            assert forall|p: int, j: int| 0 <= p < j < d.len() implies d[p].bucket < d[j].bucket by {
                assert(d[p] == s[p + 1]);
                assert(d[j] == s[j + 1]);
            }
        }
        lemma_merge_idempotent(d, b, field, price);
        assert(u == seq![s[0]] + upsert(d, b, field, price));
        assert(u[0] == s[0]);
        assert(u.drop_first() =~= upsert(d, b, field, price));
        assert(upsert(u, b, field, price) == seq![u[0]] + upsert(u.drop_first(), b, field, price));
        assert(upsert(u, b, field, price) =~= u);
    } else if s[0].bucket == b {
        let e = Entry { bucket: b, sample: s[0].sample.with_field(field, price) };
        assert(u == s.update(0, e));
        assert(u[0] == e);
        assert(upsert(u, b, field, price) == u.update(
            0,
            Entry { bucket: b, sample: e.sample.with_field(field, price) },
        ));
        assert(e.sample.with_field(field, price) == e.sample);
        assert(upsert(u, b, field, price) =~= u);
    } else {
        assert(u == seq![fresh] + s);
        assert(u[0] == fresh);
        assert(fresh.sample.with_field(field, price) == fresh.sample);
        assert(upsert(u, b, field, price) == u.update(0, fresh));
        assert(upsert(u, b, field, price) =~= u);
    }
}

/// Merging the same (timestamp, price) sample twice in a row yields the same
/// store as merging it once.
pub proof fn lemma_merge_sample_twice(
    s: Seq<Entry>,
    secs: int,
    field: SampleField,
    batch: Seq<RawSample>,
    x: RawSample,
)
    requires
        entries_wf(s, secs),
        1 <= secs,
        forall|k: int|
            0 <= k < batch.len() ==> 0 <= (#[trigger] batch[k]).timestamp && price_ok(batch[k].price),
        0 <= x.timestamp,
        price_ok(x.price),
    ensures
        merged(s, secs, field, batch.push(x).push(x)) == merged(s, secs, field, batch.push(x)),
{
    lemma_merged_ascending(s, secs, field, batch);
    let m = merged(s, secs, field, batch);
    let b = round_spec(x.timestamp as int, secs) as i64;
    let once = batch.push(x);
    assert(once.drop_last() =~= batch);
    assert(once.last() == x);
    assert(merged(s, secs, field, once) == upsert(m, b, field, x.price));
    let twice = once.push(x);
    assert(twice.drop_last() =~= once);
    assert(twice.last() == x);
    assert(merged(s, secs, field, twice) == upsert(merged(s, secs, field, once), b, field, x.price));
    lemma_merge_idempotent(m, b, field, x.price);
}

/// Merging a price into one field of a bucket never clears the other field of
/// any bucket: whatever the other field held, it still holds it afterwards.
pub proof fn lemma_merge_preserves_other_field(
    s: Seq<Entry>,
    b: i64,
    field: SampleField,
    other: SampleField,
    price: i64,
    q: i64,
)
    requires
        ordered(s),
        field != other,
        sample_at(s, q) is Some,
        sample_at(s, q)->0.spec_field(other) is Some,
    ensures
        sample_at(upsert(s, b, field, price), q) is Some,
        sample_at(upsert(s, b, field, price), q)->0.spec_field(other) == sample_at(s, q)->0.spec_field(
            other,
        ),
{
    lemma_upsert_sample_at(s, b, field, price, q);
}

/// Two strictly sorted stores that agree on the sample under every bucket
/// are the same store.
proof fn lemma_sorted_store_unique(s1: Seq<Entry>, s2: Seq<Entry>)
    requires
        ordered(s1),
        ordered(s2),
        forall|b: i64| #[trigger] sample_at(s1, b) == sample_at(s2, b),
    ensures
        s1 == s2,
    decreases s1.len(),
{
    if s1.len() == 0 {
        if s2.len() > 0 {
            assert forall|i: int| 0 <= i < s1.len() implies (#[trigger] s1[i]).bucket != s2[0].bucket by {}
            lemma_sample_at_absent(s1, s2[0].bucket);
            assert(sample_at(s2, s2[0].bucket) is Some);
            assert(false);
        }
        assert(s1 =~= s2);
    } else if s2.len() == 0 {
        assert forall|i: int| 0 <= i < s2.len() implies (#[trigger] s2[i]).bucket != s1[0].bucket by {}
        lemma_sample_at_absent(s2, s1[0].bucket);
        assert(sample_at(s1, s1[0].bucket) is Some);
        assert(false);
    } else {
        let b1 = s1[0].bucket;
        let b2 = s2[0].bucket;
        if b1 < b2 {
            assert forall|i: int| 0 <= i < s2.len() implies (#[trigger] s2[i]).bucket != b1 by {
                if i > 0 {
                    assert(s2[0].bucket < s2[i].bucket);
                }
            }
            lemma_sample_at_absent(s2, b1);
            assert(sample_at(s1, b1) is Some);
            assert(false);
        }
        if b2 < b1 {
            assert forall|i: int| 0 <= i < s1.len() implies (#[trigger] s1[i]).bucket != b2 by {
                if i > 0 {
                    assert(s1[0].bucket < s1[i].bucket);
                }
            }
            lemma_sample_at_absent(s1, b2);
            assert(sample_at(s2, b2) is Some);
            assert(false);
        }
        assert(b1 == b2);
        assert(sample_at(s1, b1) == Some(s1[0].sample));
        assert(sample_at(s2, b1) == Some(s2[0].sample));
        assert(s1[0] == s2[0]);
        let d1 = s1.drop_first();
        let d2 = s2.drop_first();
        assert(ordered(d1) && ordered(d2)) by {
            assert forall|p: int, q: int| 0 <= p < q < d1.len() implies d1[p].bucket < d1[q].bucket by {
                assert(d1[p] == s1[p + 1]);
                assert(d1[q] == s1[q + 1]);
            }
            assert forall|p: int, q: int| 0 <= p < q < d2.len() implies d2[p].bucket < d2[q].bucket by {
                assert(d2[p] == s2[p + 1]);
                assert(d2[q] == s2[q + 1]);
            }
        }
        assert forall|b: i64| #[trigger] sample_at(d1, b) == sample_at(d2, b) by {
            if b == b1 {
                assert forall|i: int| 0 <= i < d1.len() implies (#[trigger] d1[i]).bucket != b by {
                    assert(d1[i] == s1[i + 1]);
                    assert(s1[0].bucket < s1[i + 1].bucket);
                }
                assert forall|i: int| 0 <= i < d2.len() implies (#[trigger] d2[i]).bucket != b by {
                    assert(d2[i] == s2[i + 1]);
                    assert(s2[0].bucket < s2[i + 1].bucket);
                }
                lemma_sample_at_absent(d1, b);
                lemma_sample_at_absent(d2, b);
            } else {
                assert(sample_at(s1, b) == sample_at(d1, b));
                assert(sample_at(s2, b) == sample_at(d2, b));
            }
        }
        lemma_sorted_store_unique(d1, d2);
        assert forall|i: int| 0 <= i < s1.len() implies s1[i] == s2[i] by {
            if i > 0 {
                assert(s1[i] == d1[i - 1]);
                assert(s2[i] == d2[i - 1]);
            }
        }
        assert(s1 =~= s2);
    }
}

/// Merging two samples that write different targets — different buckets, or
/// different fields of the same bucket — yields the same store in either
/// order: within a batch, order only matters where the same field of the
/// same bucket is written twice, and there the last write wins.
pub proof fn lemma_merge_order_irrelevant(
    s: Seq<Entry>,
    secs: int,
    b1: i64,
    f1: SampleField,
    p1: i64,
    b2: i64,
    f2: SampleField,
    p2: i64,
)
    requires
        entries_wf(s, secs),
        aligned(b1 as int, secs),
        aligned(b2 as int, secs),
        price_ok(p1),
        price_ok(p2),
        b1 != b2 || f1 != f2,
    ensures
        upsert(upsert(s, b1, f1, p1), b2, f2, p2) == upsert(upsert(s, b2, f2, p2), b1, f1, p1),
{
    let l = upsert(upsert(s, b1, f1, p1), b2, f2, p2);
    let r = upsert(upsert(s, b2, f2, p2), b1, f1, p1);
    lemma_upsert_wf(s, secs, b1, f1, p1);
    lemma_upsert_wf(s, secs, b2, f2, p2);
    lemma_upsert_wf(upsert(s, b1, f1, p1), secs, b2, f2, p2);
    lemma_upsert_wf(upsert(s, b2, f2, p2), secs, b1, f1, p1);
    assert forall|b: i64| #[trigger] sample_at(l, b) == sample_at(r, b) by {
        lemma_upsert_sample_at(s, b1, f1, p1, b);
        lemma_upsert_sample_at(s, b2, f2, p2, b);
        lemma_upsert_sample_at(upsert(s, b1, f1, p1), b2, f2, p2, b);
        lemma_upsert_sample_at(upsert(s, b2, f2, p2), b1, f1, p1, b);
        if b1 != b2 {
            lemma_upsert_sample_at(s, b1, f1, p1, b2);
            lemma_upsert_sample_at(s, b2, f2, p2, b1);
        }
    }
    lemma_sorted_store_unique(l, r);
}

/// Where the upsert lands in a sorted sequence: given the first position `i`
/// whose bucket is not below `b`, the upsert is an update at `i` when the
/// bucket is already present, and an insertion at `i` otherwise.
proof fn lemma_upsert_at(s: Seq<Entry>, b: i64, field: SampleField, price: i64, i: int)
    requires
        ordered(s),
        0 <= i <= s.len(),
        forall|j: int| 0 <= j < i ==> s[j].bucket < b,
        i < s.len() ==> s[i].bucket >= b,
    ensures
        i < s.len() && s[i].bucket == b ==> upsert(s, b, field, price) == s.update(
            i,
            Entry { bucket: b, sample: s[i].sample.with_field(field, price) },
        ),
        !(i < s.len() && s[i].bucket == b) ==> upsert(s, b, field, price) == s.take(i) + seq![
            Entry { bucket: b, sample: PriceSample::spec_empty().with_field(field, price) },
        ] + s.skip(i),
    decreases s.len(),
{
    let fresh = Entry { bucket: b, sample: PriceSample::spec_empty().with_field(field, price) };
    if s.len() == 0 {
        assert(upsert(s, b, field, price) =~= s.take(i) + seq![fresh] + s.skip(i));
    } else if i == 0 {
        if s[0].bucket == b {
        } else {
            assert(s[0].bucket > b);
            assert(upsert(s, b, field, price) =~= s.take(0) + seq![fresh] + s.skip(0));
        }
    } else {
        assert(s[0].bucket < b);
        let d = s.drop_first();
        assert(ordered(d)) by {
            assert forall|p: int, q: int| 0 <= p < q < d.len() implies d[p].bucket < d[q].bucket by {
                assert(d[p] == s[p + 1]);
                assert(d[q] == s[q + 1]);
            }
        }
        assert forall|j: int| 0 <= j < i - 1 implies d[j].bucket < b by {
            assert(d[j] == s[j + 1]);
        }
        lemma_upsert_at(d, b, field, price, i - 1);
        if i < s.len() && s[i].bucket == b {
            assert(d[i - 1] == s[i]);
            assert(seq![s[0]] + d.update(
                i - 1,
                Entry { bucket: b, sample: d[i - 1].sample.with_field(field, price) },
            ) =~= s.update(i, Entry { bucket: b, sample: s[i].sample.with_field(field, price) }));
        } else {
            assert(seq![s[0]] + (d.take(i - 1) + seq![fresh] + d.skip(i - 1)) =~= s.take(i)
                + seq![fresh] + s.skip(i));
        }
    }
}

} // verus!
