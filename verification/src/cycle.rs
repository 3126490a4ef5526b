//! The decision core of the poll-compute loop.
//!
//! Each cycle the loop sleeps, fetches, merges and trims, snapshots,
//! computes, and renders. The sleeping, fetching and printing are plain I/O
//! around this module; `cycle` takes the fetch's outcome and decides
//! everything else: what the store becomes, how the extremes move, and what
//! the status line must show.

use vstd::prelude::*;
use crate::autocorrelation::{autocorrelation_of_returns, autocorrelation_spec};
use crate::extremes::RunningExtremes;
use crate::sample::{price_ok, SampleField};
use crate::series::{merged, snapshot_spec, trimmed, RawSample, RollingSeries};

verus! {

/// What the fetch step produced: a batch of raw samples, or a failure that
/// is logged and skipped.
pub enum FetchEvent {
    Data(Vec<RawSample>),
    Failed,
}

/// What the render step must show for one cycle.
#[derive(Clone, Copy, Debug, PartialEq, Eq, Structural)]
pub enum StatusLine {
    /// The latest known price with the statistic and the running extremes.
    Report { last_price: i64, value: i128, highest: i128, lowest: i128 },
    /// The latest bucket holds no price.
    NoLatestPrice,
    /// The statistic cannot be computed from the data at hand.
    NotComputable,
}

/// The state the loop carries between cycles.
pub struct LoopState {
    pub series: RollingSeries,
    pub extremes: RunningExtremes,
    pub lag: usize,
}

impl LoopState {
    pub open spec fn wf(self) -> bool {
        &&& self.series.wf()
        &&& self.extremes.wf()
    }

    /// The state at loop start: the freshly initialized store, no extremes
    /// observed yet, and the lag captured once from the configuration.
    pub fn new(series: RollingSeries, lag: usize) -> (st: LoopState)
        requires
            series.wf(),
        ensures
            st.wf(),
            st.series == series,
            st.lag == lag,
            st.extremes.highest is None,
            st.extremes.lowest is None,
    {
        LoopState { series, extremes: RunningExtremes::new(), lag }
    }

    /// One cycle after the fetch. On a failed fetch nothing changes and
    /// nothing is rendered: the loop skips straight to its next sleep. On
    /// fetched data the batch is merged into the fetched field and the store
    /// trimmed, the statistic of the new snapshot is computed with the
    /// configured lag, a computed value widens the extremes, and the status
    /// line shows the latest known price with the statistic and the extremes
    /// — or a distinct placeholder when the latest bucket has no price, or
    /// when the statistic is not computable.
    pub fn cycle(&mut self, event: FetchEvent) -> (line: Option<StatusLine>)
        requires
            old(self).wf(),
            event matches FetchEvent::Data(batch) ==> forall|k: int|
                0 <= k < batch@.len() ==> 0 <= (#[trigger] batch@[k]).timestamp && price_ok(
                    batch@[k].price,
                ),
        ensures
            final(self).wf(),
            final(self).lag == old(self).lag,
            event is Failed ==> *final(self) == *old(self) && line is None,
            event matches FetchEvent::Data(batch) ==> ({
                let entries = trimmed(
                    merged(
                        old(self).series@,
                        old(self).series.period.seconds_spec(),
                        SampleField::Fetched,
                        batch@,
                    ),
                    old(self).series.capacity as int,
                );
                let ac = autocorrelation_spec(snapshot_spec(entries), old(self).lag as int);
                &&& final(self).series@ == entries
                &&& final(self).series.capacity == old(self).series.capacity
                &&& final(self).series.period == old(self).series.period
                &&& (ac is Some ==> final(self).extremes == old(self).extremes.spec_updated(
                    ac->0 as i128,
                ))
                &&& (ac is None ==> final(self).extremes == old(self).extremes)
                &&& line is Some
                &&& (ac is None ==> line->0 == StatusLine::NotComputable)
                &&& (ac is Some ==> ({
                    let last = entries.last().sample.spec_present_price();
                    &&& (last is None ==> line->0 == StatusLine::NoLatestPrice)
                    &&& (last is Some ==> line->0 == (StatusLine::Report {
                        last_price: last->0,
                        value: ac->0 as i128,
                        highest: final(self).extremes.highest->0,
                        lowest: final(self).extremes.lowest->0,
                    }))
                }))
            }),
    {
        match event {
            FetchEvent::Failed => None,
            FetchEvent::Data(batch) => {
                self.series.merge_and_trim(SampleField::Fetched, &batch);
                let snap = self.series.snapshot();
                proof {
                    assert(snap@.len() == self.series@.len());
                    assert forall|i: int| 0 <= i < snap@.len() implies (#[trigger] snap@[i]).wf() by {
                        assert(snap@[i] == self.series@[i].sample);
                    }
                }
                let ac = autocorrelation_of_returns(&snap, self.lag);
                match ac {
                    Some(v) => {
                        let (high, low) = self.extremes.update(v);
                        let n = self.series.entries.len();
                        let last = self.series.entries[n - 1].sample.present_price();
                        proof {
                            assert(self.series@.last() == self.series@[n - 1]);
                        }
                        match last {
                            Some(p) => Some(
                                StatusLine::Report { last_price: p, value: v, highest: high, lowest: low },
                            ),
                            None => Some(StatusLine::NoLatestPrice),
                        }
                    }
                    None => Some(StatusLine::NotComputable),
                }
            }
        }
    }
}

} // verus!
