use vstd::prelude::*;

use crate::grid::MAX_STEPS;

verus! {

/// Tally of one evaluation condition: how many episodes succeeded, and the
/// hop count and recovery cost of each successful one.
pub struct Metrics {
    pub success: usize,
    pub hops: Vec<usize>,
    pub recovery: Vec<usize>,
}

impl Metrics {
    /// One hop count and one recovery cost is kept per success.
    pub open spec fn consistent(&self) -> bool {
        &&& self.hops@.len() == self.success
        &&& self.recovery@.len() == self.success
    }

    /// Records an episode: a success counts and keeps its hop count and
    /// recovery cost; a failure changes nothing.
    pub fn add(&mut self, ok: bool, hops: usize, recovery: usize)
        requires
            ok ==> old(self).success < usize::MAX,
        ensures
            ok ==> final(self).success == old(self).success + 1 && final(self).hops@ == old(
                self,
            ).hops@.push(hops) && final(self).recovery@ == old(self).recovery@.push(recovery),
            !ok ==> final(self).success == old(self).success && final(self).hops@ == old(
                self,
            ).hops@ && final(self).recovery@ == old(self).recovery@,
            old(self).consistent() ==> final(self).consistent(),
    {
        if ok {
            self.success = self.success + 1;
            self.hops.push(hops);
            self.recovery.push(recovery);
        }
    }
}

impl Default for Metrics {
    /// No episode recorded yet.
    fn default() -> (m: Self)
        ensures
            m.success == 0,
            m.hops@ == Seq::<usize>::empty(),
            m.recovery@ == Seq::<usize>::empty(),
            m.consistent(),
    {
        Metrics { success: 0, hops: Vec::new(), recovery: Vec::new() }
    }
}

/// Extra hops a failure costs: the oracle's shortest route on the damaged
/// grid minus the one on the intact grid (never below zero), or the whole
/// step budget when the damaged grid has no route.
pub fn recovery_cost(oracle: Option<usize>, before: usize) -> (r: usize)
    ensures
        r == match oracle {
            Some(h) => if h >= before { (h - before) as usize } else { 0 },
            None => MAX_STEPS,
        },
{
    match oracle {
        Some(h) => h.saturating_sub(before),
        None => MAX_STEPS,
    }
}

/// The oracle's own episode outcome: success with its route length, or
/// failure after the whole step budget.
pub fn oracle_outcome(oracle: Option<usize>) -> (r: (bool, usize))
    ensures
        r == match oracle {
            Some(h) => (true, h),
            None => (false, MAX_STEPS),
        },
{
    match oracle {
        Some(h) => (true, h),
        None => (false, MAX_STEPS),
    }
}

} // verus!
