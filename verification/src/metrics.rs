//! Running totals of the watcher's work: counters only ever grow, and the
//! most recently excluded path is remembered with its time.

use vstd::prelude::*;

use crate::path::AbsPath;

verus! {

/// The watcher's running totals.
#[derive(Debug)]
pub struct Metrics {
    /// How many paths have been excluded so far.
    pub files_excluded: u64,
    /// How many paths have been re-included so far.
    pub files_included: u64,
    /// The path excluded most recently, if any.
    pub last_excluded: Option<AbsPath>,
    /// When the most recent exclusion happened, in Unix seconds.
    pub last_excluded_time: u64,
}

impl Metrics {
    /// Fresh metrics: both counters at zero, nothing excluded yet.
    pub fn new() -> (r: Metrics)
        ensures
            r.files_excluded == 0,
            r.files_included == 0,
            r.last_excluded is None,
            r.last_excluded_time == 0,
    {
        Metrics {
            files_excluded: 0,
            files_included: 0,
            last_excluded: None,
            last_excluded_time: 0,
        }
    }

    /// Counts `n` more excluded paths. The counter never decreases; at the
    /// top of its range it saturates.
    pub fn inc_excluded(&mut self, n: u64)
        ensures
            final(self).files_excluded == if old(self).files_excluded + n <= u64::MAX {
                old(self).files_excluded + n
            } else {
                u64::MAX as int
            },
            final(self).files_excluded >= old(self).files_excluded,
            final(self).files_included == old(self).files_included,
            final(self).last_excluded == old(self).last_excluded,
            final(self).last_excluded_time == old(self).last_excluded_time,
    {
        if u64::MAX - n < self.files_excluded {
            self.files_excluded = u64::MAX;
        } else {
            self.files_excluded = self.files_excluded + n;
        }
    }

    /// Counts `n` more re-included paths. The counter never decreases; at
    /// the top of its range it saturates.
    pub fn inc_included(&mut self, n: u64)
        ensures
            final(self).files_included == if old(self).files_included + n <= u64::MAX {
                old(self).files_included + n
            } else {
                u64::MAX as int
            },
            final(self).files_included >= old(self).files_included,
            final(self).files_excluded == old(self).files_excluded,
            final(self).last_excluded == old(self).last_excluded,
            final(self).last_excluded_time == old(self).last_excluded_time,
    {
        if u64::MAX - n < self.files_included {
            self.files_included = u64::MAX;
        } else {
            self.files_included = self.files_included + n;
        }
    }

    /// Records the path excluded most recently and when, in Unix seconds.
    pub fn set_last_excluded(&mut self, path: AbsPath, now: u64)
        ensures
            final(self).last_excluded matches Some(p) && p@ == path@,
            final(self).last_excluded_time == now,
            final(self).files_excluded == old(self).files_excluded,
            final(self).files_included == old(self).files_included,
    {
        self.last_excluded = Some(path);
        self.last_excluded_time = now;
    }
}

} // verus!
