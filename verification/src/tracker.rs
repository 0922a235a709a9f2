//! Progress of a batch of simulations.
use vstd::prelude::*;

verus! {

/// How many of a batch of simulations have finished.
pub struct SimulationTracker {
    total: usize,
    finished: usize,
}

impl SimulationTracker {
    pub closed spec fn spec_total(&self) -> usize {
        self.total
    }

    pub closed spec fn spec_finished(&self) -> usize {
        self.finished
    }

    /// A tracker of `total` simulations, none of them finished.
    pub fn new(total: usize) -> (r: Self)
        ensures
            r.total() == total,
            r.finished() == 0,
    {
        SimulationTracker { total, finished: 0 }
    }

    #[verifier::when_used_as_spec(spec_total)]
    pub fn total(&self) -> (r: usize)
        ensures
            r == self.spec_total(),
    {
        self.total
    }

    #[verifier::when_used_as_spec(spec_finished)]
    pub fn finished(&self) -> (r: usize)
        ensures
            r == self.spec_finished(),
    {
        self.finished
    }

    /// Records one more finished simulation; returns how many have finished
    /// and how many are left (none once more have finished than announced).
    pub fn record(&mut self) -> (r: (usize, usize))
        requires
            old(self).finished() < usize::MAX,
        ensures
            final(self).total() == old(self).total(),
            final(self).finished() == old(self).finished() + 1,
            r.0 == final(self).finished(),
            r.1 == if final(self).total() > final(self).finished() {
                final(self).total() - final(self).finished()
            } else {
                0
            },
    {
        self.finished = self.finished + 1;
        let remaining = if self.total > self.finished { self.total - self.finished } else { 0 };
        (self.finished, remaining)
    }
}

} // verus!
