//! The two counters with which the exporter observes itself.

use vstd::prelude::*;

verus! {

/// How many requests were started and how many were completed. Each count goes up by
/// one at a time and wraps around at the largest `usize`.
pub struct RequestCounter {
    start: usize,
    end: usize,
}

/// The count after `n`.
pub open spec fn next_count(n: usize) -> usize {
    if n == usize::MAX {
        0
    } else {
        (n + 1) as usize
    }
}

impl RequestCounter {
    /// The number of requests that were started.
    pub closed spec fn started(self) -> usize {
        self.start
    }

    /// The number of requests that were completed.
    pub closed spec fn completed(self) -> usize {
        self.end
    }

    /// Both counts at zero.
    pub fn new() -> (counter: RequestCounter)
        ensures
            counter.started() == 0,
            counter.completed() == 0,
    {
        RequestCounter { start: 0, end: 0 }
    }

    /// Counts a request that starts.
    pub fn count_start(&mut self)
        ensures
            final(self).started() == next_count(old(self).started()),
            final(self).completed() == old(self).completed(),
    {
        self.start = if self.start == usize::MAX {
            0
        } else {
            self.start + 1
        };
    }

    /// Counts a request that is completed.
    pub fn count_end(&mut self)
        ensures
            final(self).completed() == next_count(old(self).completed()),
            final(self).started() == old(self).started(),
    {
        self.end = if self.end == usize::MAX {
            0
        } else {
            self.end + 1
        };
    }

    /// Reads the number of requests that were started.
    pub fn start_count(&self) -> (n: usize)
        ensures
            n == self.started(),
    {
        self.start
    }

    /// Reads the number of requests that were completed.
    pub fn end_count(&self) -> (n: usize)
        ensures
            n == self.completed(),
    {
        self.end
    }
}

} // verus!
