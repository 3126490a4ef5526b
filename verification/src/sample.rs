//! Price samples: the value stored under one time bucket.
//!
//! A sample is a pair of independently settable optional prices: an internal
//! estimate and a directly fetched value. Each field is written only through
//! its own accessor, so writing one field never clears the other.

use vstd::prelude::*;

verus! {

/// Largest price a sample may hold, in price units.
pub const MAX_PRICE: i64 = 100_000_000;

/// Fixed-point scale of the autocorrelation statistic: a statistic of
/// `SCALE` stands for 1.0.
pub const SCALE: i64 = 1_000_000;

/// Selects one of the two independently written fields of a sample.
#[derive(Clone, Copy, Debug, PartialEq, Eq, Structural)]
pub enum SampleField {
    Estimate,
    Fetched,
}

/// One bucket's value: two optional prices, each owned by one producer.
#[derive(Clone, Copy, Debug)]
pub struct PriceSample {
    pub estimate: Option<i64>,
    pub fetched: Option<i64>,
}

/// A price the store and the engine accept: positive and small enough that
/// every intermediate of the statistic fits its machine integer.
pub open spec fn price_ok(p: i64) -> bool {
    1 <= p <= MAX_PRICE
}

impl PriceSample {
    /// Both fields, when present, hold prices in range.
    pub open spec fn wf(self) -> bool {
        &&& (self.estimate is Some ==> price_ok(self.estimate->0))
        &&& (self.fetched is Some ==> price_ok(self.fetched->0))
    }

    pub open spec fn spec_field(self, field: SampleField) -> Option<i64> {
        match field {
            SampleField::Estimate => self.estimate,
            SampleField::Fetched => self.fetched,
        }
    }

    /// The sample with one field overwritten and the other left as it was.
    pub open spec fn with_field(self, field: SampleField, price: i64) -> PriceSample {
        match field {
            SampleField::Estimate => PriceSample { estimate: Some(price), fetched: self.fetched },
            SampleField::Fetched => PriceSample { estimate: self.estimate, fetched: Some(price) },
        }
    }

    pub open spec fn spec_empty() -> PriceSample {
        PriceSample { estimate: None, fetched: None }
    }

    /// The price the engine reads from this sample: the fetched value when
    /// present, the estimate otherwise.
    pub open spec fn spec_present_price(self) -> Option<i64> {
        if self.fetched is Some {
            self.fetched
        } else {
            self.estimate
        }
    }

    pub fn empty() -> (s: PriceSample)
        ensures
            s == PriceSample::spec_empty(),
    {
        PriceSample { estimate: None, fetched: None }
    }

    /// Writes `price` into the selected field; the other field is untouched.
    pub fn set_field(&mut self, field: SampleField, price: i64)
        ensures
            *final(self) == old(self).with_field(field, price),
    {
        match field {
            SampleField::Estimate => {
                self.estimate = Some(price);
            }
            SampleField::Fetched => {
                self.fetched = Some(price);
            }
        }
    }

    pub fn present_price(&self) -> (r: Option<i64>)
        ensures
            r == self.spec_present_price(),
    {
        match self.fetched {
            Some(p) => Some(p),
            None => self.estimate,
        }
    }
}

/// Writing one field of a sample never clears the other field: whatever the
/// untouched field held before the write, it holds afterwards.
pub proof fn lemma_other_field_preserved(s: PriceSample, field: SampleField, other: SampleField, price: i64)
    requires
        field != other,
    ensures
        s.with_field(field, price).spec_field(other) == s.spec_field(other),
{
}

/// Writing a field is idempotent: writing the same price twice leaves the
/// sample exactly as one write does.
pub proof fn lemma_set_field_idempotent(s: PriceSample, field: SampleField, price: i64)
    ensures
        s.with_field(field, price).with_field(field, price) == s.with_field(field, price),
{
}

} // verus!
