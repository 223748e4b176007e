//! Progress events, kept separate from the copy logic: how much is done, and
//! when the next event is due. Drawing the bar and printing the events is the
//! driver's.

use crate::copier;
use vstd::prelude::*;

verus! {

/// Minimum spacing between two progress events, in milliseconds.
pub const EVENT_INTERVAL: u64 = 2000;

/// Counts what a phase has done, over a baseline carried over from earlier runs.
#[derive(Debug, Clone, Copy, PartialEq, Eq, Structural)]
pub struct EventCounter {
    pub total: u64,
    pub baseline: u64,
    pub done: u64,
}

impl EventCounter {
    /// A counter for a domain of `total` bytes (`0` = unknown) of which
    /// `baseline` are already processed.
    pub fn new(total: u64, baseline: u64) -> (r: Self)
        ensures
            r == (EventCounter { total, baseline, done: baseline }),
    {
        EventCounter { total, baseline, done: baseline }
    }

    /// Count `n` more bytes. Returns whether an event is due, `since_last`
    /// milliseconds after the last one.
    pub fn tick(&mut self, n: u64, since_last: u64) -> (r: bool)
        ensures
            *final(self) == (EventCounter {
                done: copier::counted(old(self).done as int, n as int) as u64,
                ..*old(self)
            }),
            r == (since_last >= EVENT_INTERVAL),
    {
        self.done = self.done.saturating_add(n);
        since_last >= EVENT_INTERVAL
    }

    /// The bytes done by this run: the baseline is excluded.
    pub fn this_run(&self) -> (r: u64)
        requires
            self.baseline <= self.done,
        ensures
            r == self.done - self.baseline,
    {
        self.done - self.baseline
    }
}

} // verus!
