//! The mission: the watcher's shared state — current configuration,
//! metrics, and the status of the full scan — and the verified steps of the
//! event-handling loop.

use vstd::prelude::*;

use crate::config::Config;
use crate::config::ConfigError;
use crate::metrics::Metrics;
use crate::path::AbsPath;
use crate::skip_cache::skip_cache_contents;
use crate::skip_cache::SkipCache;
use crate::tmutil::pathseq_view;
use crate::tmutil::ExclusionActionBatch;

verus! {

/// Where the full scan stands.
#[derive(Debug)]
pub enum ScanStatus {
    /// No scan is running and none has finished.
    Idle,
    /// A scan is running; the path it is visiting and the number of actions
    /// found so far.
    Scanning {
        /// The directory the scanner reported most recently.
        current_path: AbsPath,
        /// The number of actions discovered so far.
        found: u64,
    },
    /// The scan finished with this batch.
    Result(ExclusionActionBatch),
}

/// The mission's state: the active configuration, the metrics, and the scan
/// status. The live loop around it — event subscription, workers, timers —
/// drives these fields through the verified steps below.
pub struct MissionState {
    /// The active configuration.
    pub config: Config,
    /// The watcher's running totals.
    pub metrics: Metrics,
    /// Where the full scan stands.
    pub scan_status: ScanStatus,
}

impl MissionState {
    /// A fresh mission holding the given configuration, idle and with fresh
    /// metrics.
    pub fn new(config: Config) -> (r: MissionState)
        ensures
            r.config.no_include == config.no_include,
            r.config.walk@ == config.walk@,
            r.scan_status is Idle,
            r.metrics.files_excluded == 0 && r.metrics.files_included == 0,
    {
        MissionState { config, metrics: Metrics::new(), scan_status: ScanStatus::Idle }
    }

    /// Installs a newly resolved configuration, or keeps the old one.
    ///
    /// The candidate is the outcome of resolving a raw configuration. On
    /// success the whole configuration is replaced in one assignment — a
    /// reader holds either the old value or the new one, never a mix — and
    /// the skip cache is flushed, since its entries were justified by the
    /// old configuration. A candidate that failed to resolve leaves the
    /// previous configuration active and hands the resolver's error back.
    pub fn set_config(&mut self, candidate: Result<Config, ConfigError>, cache: &mut SkipCache) -> (r:
        Result<(), ConfigError>)
        ensures
            match candidate {
                Ok(c) => {
                    &&& r is Ok
                    &&& final(self).config.no_include == c.no_include
                    &&& final(self).config.walk@ == c.walk@
                    &&& skip_cache_contents(final(cache)) == Set::<Seq<Seq<char>>>::empty()
                },
                Err(_) => {
                    &&& r is Err
                    &&& final(self).config.no_include == old(self).config.no_include
                    &&& final(self).config.walk@ == old(self).config.walk@
                    &&& skip_cache_contents(final(cache)) == skip_cache_contents(old(cache))
                },
            },
            final(self).metrics == old(self).metrics,
            final(self).scan_status == old(self).scan_status,
    {
        match candidate {
            Ok(c) => {
                self.config = c;
                cache.invalidate_all();
                Ok(())
            },
            Err(e) => Err(e),
        }
    }

    /// Where the full scan stands.
    pub fn scan_status(&self) -> (r: &ScanStatus)
        ensures
            r == self.scan_status,
    {
        &self.scan_status
    }

    /// Publishes a new scan status.
    pub fn set_scan_status(&mut self, status: ScanStatus)
        ensures
            final(self).scan_status == status,
            final(self).config == old(self).config,
            final(self).metrics == old(self).metrics,
    {
        self.scan_status = status;
    }

    /// Abandons the full scan: whatever was running or recorded, the status
    /// returns to idle.
    pub fn stop_full_scan(&mut self)
        ensures
            final(self).scan_status is Idle,
            final(self).config == old(self).config,
            final(self).metrics == old(self).metrics,
    {
        self.scan_status = ScanStatus::Idle;
    }
}

/// Narrows a rescan's batch to what the policy lets the watcher apply:
/// under `no_include` the removals are dropped, never applied; the
/// additions always survive.
pub fn process_event_batch(batch: ExclusionActionBatch, no_include: bool) -> (r:
    ExclusionActionBatch)
    ensures
        pathseq_view(r.add@) == pathseq_view(batch.add@),
        no_include ==> r.remove@.len() == 0,
        !no_include ==> pathseq_view(r.remove@) == pathseq_view(batch.remove@),
{
    let mut batch = batch;
    if no_include {
        batch.clear_removals();
    }
    batch
}

/// The bookkeeping after one batch was applied successfully: the counters
/// grow by exactly the applied actions, and a non-empty addition list
/// records its last path as the most recently excluded, at `now` Unix
/// seconds.
pub fn record_event_metrics(applied: &ExclusionActionBatch, metrics: &mut Metrics, now: u64)
    ensures
        final(metrics).files_excluded >= old(metrics).files_excluded,
        final(metrics).files_included >= old(metrics).files_included,
        final(metrics).files_excluded == if old(metrics).files_excluded + applied.add@.len()
            <= u64::MAX {
            old(metrics).files_excluded + applied.add@.len()
        } else {
            u64::MAX as int
        },
        final(metrics).files_included == if old(metrics).files_included + applied.remove@.len()
            <= u64::MAX {
            old(metrics).files_included + applied.remove@.len()
        } else {
            u64::MAX as int
        },
        applied.add@.len() > 0 ==> (final(metrics).last_excluded matches Some(p) && p@
            == applied.add@.last()@) && final(metrics).last_excluded_time == now,
        applied.add@.len() == 0 ==> final(metrics).last_excluded == old(metrics).last_excluded
            && final(metrics).last_excluded_time == old(metrics).last_excluded_time,
{
    metrics.inc_excluded(applied.add.len() as u64);
    metrics.inc_included(applied.remove.len() as u64);
    if applied.add.len() > 0 {
        let last = applied.add[applied.add.len() - 1].clone();
        metrics.set_last_excluded(last, now);
    }
}

/// One watcher worker's whole reaction to a rescan batch: the policy filter
/// is applied, the surviving actions are committed, and only a fully
/// successful apply updates the metrics. Under `no_include` nothing is ever
/// committed — or reported failed — through a removal. A failed apply
/// leaves the metrics untouched and hands the per-path failures back.
pub fn handle_event_batch(
    batch: ExclusionActionBatch,
    no_include: bool,
    metrics: &mut Metrics,
    now: u64,
) -> (r: Result<(), Vec<(AbsPath, crate::tmutil::ApplyError)>>)
    ensures
        r is Ok ==> {
            &&& final(metrics).files_excluded == if old(metrics).files_excluded
                + batch.add@.len() <= u64::MAX {
                old(metrics).files_excluded + batch.add@.len()
            } else {
                u64::MAX as int
            }
            &&& final(metrics).files_included == if old(metrics).files_included + (
            if no_include {
                0int
            } else {
                batch.remove@.len() as int
            }) <= u64::MAX {
                old(metrics).files_included + (if no_include {
                    0int
                } else {
                    batch.remove@.len() as int
                })
            } else {
                u64::MAX as int
            }
            &&& batch.add@.len() > 0 ==> (final(metrics).last_excluded matches Some(p) && p@
                == batch.add@.last()@) && final(metrics).last_excluded_time == now
            &&& batch.add@.len() == 0 ==> final(metrics).last_excluded == old(
                metrics,
            ).last_excluded && final(metrics).last_excluded_time == old(
                metrics,
            ).last_excluded_time
        },
        r matches Err(v) ==> {
            &&& *final(metrics) == *old(metrics)
            &&& v@.len() >= 1
            &&& forall|k: int| 0 <= k < v@.len() ==> pathseq_view(batch.add@).contains(
                #[trigger] v@[k].0@,
            ) || (!no_include && pathseq_view(batch.remove@).contains(v@[k].0@))
        },
{
    let filtered = process_event_batch(batch, no_include);
    let recorded = filtered.clone();
    proof {
        assert(pathseq_view(recorded.add@).len() == recorded.add@.len());
        assert(pathseq_view(filtered.add@).len() == filtered.add@.len());
        assert(pathseq_view(batch.add@).len() == batch.add@.len());
        assert(recorded.add@.len() == batch.add@.len());
        assert(pathseq_view(recorded.remove@).len() == recorded.remove@.len());
        assert(pathseq_view(filtered.remove@).len() == filtered.remove@.len());
        assert(recorded.remove@.len() == filtered.remove@.len());
        if !no_include {
            assert(pathseq_view(batch.remove@).len() == batch.remove@.len());
            assert(recorded.remove@.len() == batch.remove@.len());
        }
        if batch.add@.len() > 0 {
            let n = batch.add@.len() - 1;
            assert(pathseq_view(recorded.add@)[n] == recorded.add@[n]@);
            assert(pathseq_view(filtered.add@)[n] == filtered.add@[n]@);
            assert(pathseq_view(batch.add@)[n] == batch.add@[n]@);
            assert(recorded.add@.last()@ == batch.add@.last()@);
        }
    }
    match filtered.apply() {
        Ok(_) => {
            record_event_metrics(&recorded, metrics, now);
            Ok(())
        },
        Err(v) => Err(v),
    }
}

} // verus!
