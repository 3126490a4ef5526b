//! Running extrema of the computed statistic: the highest and lowest values
//! ever observed since start. They only ever move outward and are never
//! reset.

use vstd::prelude::*;

verus! {

/// Highest and lowest observed statistic; absent until the first value.
#[derive(Clone, Copy, Debug)]
pub struct RunningExtremes {
    pub highest: Option<i128>,
    pub lowest: Option<i128>,
}

impl RunningExtremes {
    /// Both bounds appear together, and they never cross.
    pub open spec fn wf(self) -> bool {
        &&& (self.highest is Some <==> self.lowest is Some)
        &&& (self.highest is Some ==> self.lowest->0 <= self.highest->0)
    }

    /// The extremes after observing `v`: each bound moves only outward.
    pub open spec fn spec_updated(self, v: i128) -> RunningExtremes {
        RunningExtremes {
            highest: match self.highest {
                Some(h) => if v > h {
                    Some(v)
                } else {
                    Some(h)
                },
                None => Some(v),
            },
            lowest: match self.lowest {
                Some(l) => if v < l {
                    Some(v)
                } else {
                    Some(l)
                },
                None => Some(v),
            },
        }
    }

    pub fn new() -> (e: RunningExtremes)
        ensures
            e.highest is None,
            e.lowest is None,
            e.wf(),
    {
        RunningExtremes { highest: None, lowest: None }
    }

    /// Folds one observed value in and hands back the (highest, lowest) pair
    /// now held: the maximum only ever rises, the minimum only ever falls.
    pub fn update(&mut self, v: i128) -> (r: (i128, i128))
        requires
            old(self).wf(),
        ensures
            *final(self) == old(self).spec_updated(v),
            final(self).wf(),
            final(self).highest is Some && final(self).lowest is Some,
            r.0 == final(self).highest->0,
            r.1 == final(self).lowest->0,
            final(self).lowest->0 <= v <= final(self).highest->0,
            old(self).highest is Some ==> old(self).highest->0 <= final(self).highest->0,
            old(self).lowest is Some ==> final(self).lowest->0 <= old(self).lowest->0,
    {
        let h = match self.highest {
            Some(h) => if v > h {
                v
            } else {
                h
            },
            None => v,
        };
        let l = match self.lowest {
            Some(l) => if v < l {
                v
            } else {
                l
            },
            None => v,
        };
        self.highest = Some(h);
        self.lowest = Some(l);
        (h, l)
    }
}

/// The extremes after observing a whole sequence of values, oldest first.
pub open spec fn folded_extremes(e: RunningExtremes, vs: Seq<i128>) -> RunningExtremes
    decreases vs.len(),
{
    if vs.len() == 0 {
        e
    } else {
        folded_extremes(e, vs.drop_last()).spec_updated(vs.last())
    }
}

/// Across any sequence of computed values the running extremes only ever
/// widen: the maximum never falls, the minimum never rises, and they never
/// shrink toward each other.
pub proof fn lemma_extremes_only_widen(e: RunningExtremes, vs: Seq<i128>)
    requires
        e.wf(),
    ensures
        folded_extremes(e, vs).wf(),
        e.highest is Some ==> folded_extremes(e, vs).highest is Some && e.highest->0
            <= folded_extremes(e, vs).highest->0,
        e.lowest is Some ==> folded_extremes(e, vs).lowest is Some && folded_extremes(e, vs).lowest->0
            <= e.lowest->0,
        vs.len() > 0 ==> folded_extremes(e, vs).highest is Some && folded_extremes(e, vs).lowest is Some,
    decreases vs.len(),
{
    if vs.len() > 0 {
        lemma_extremes_only_widen(e, vs.drop_last());
    }
}

} // verus!
