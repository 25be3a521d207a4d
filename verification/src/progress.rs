//! Run progress: success and failure tallies and the per-item delay policy.
//!
//! The console reporting around these counters is I/O and lives outside the
//! library; the counting and the batch-wait decision are verified here.

use vstd::prelude::*;

verus! {

/// Counters and pacing settings of one run.
pub struct ProgressTracker {
    pub total_pages: usize,
    pub success_count: usize,
    pub error_count: usize,
    pub batch_size: usize,
    pub wait_time: u64,
    pub request_delay: u64,
}

impl ProgressTracker {
    /// Every item is counted at most once, as a success or as an error.
    pub open spec fn wf(self) -> bool {
        self.success_count + self.error_count <= self.total_pages
    }

    pub fn new(total_pages: usize, batch_size: usize, wait_time: u64, request_delay: u64) -> (r:
        Self)
        ensures
            r.total_pages == total_pages,
            r.batch_size == batch_size,
            r.wait_time == wait_time,
            r.request_delay == request_delay,
            r.success_count == 0,
            r.error_count == 0,
            r.wf(),
    {
        ProgressTracker {
            total_pages,
            success_count: 0,
            error_count: 0,
            batch_size,
            wait_time,
            request_delay,
        }
    }

    /// Count one item that reached a successful terminal outcome.
    pub fn record_success(&mut self)
        requires
            old(self).wf(),
            old(self).success_count + old(self).error_count < old(self).total_pages,
        ensures
            final(self).wf(),
            final(self).success_count == old(self).success_count + 1,
            final(self).error_count == old(self).error_count,
            final(self).total_pages == old(self).total_pages,
            final(self).batch_size == old(self).batch_size,
            final(self).wait_time == old(self).wait_time,
            final(self).request_delay == old(self).request_delay,
            *final(self) == spec_record(*old(self), true),
    {
        self.success_count = self.success_count + 1;
    }

    /// Count one item that reached a failed terminal outcome.
    pub fn record_error(&mut self)
        requires
            old(self).wf(),
            old(self).success_count + old(self).error_count < old(self).total_pages,
        ensures
            final(self).wf(),
            final(self).error_count == old(self).error_count + 1,
            final(self).success_count == old(self).success_count,
            final(self).total_pages == old(self).total_pages,
            final(self).batch_size == old(self).batch_size,
            final(self).wait_time == old(self).wait_time,
            final(self).request_delay == old(self).request_delay,
            *final(self) == spec_record(*old(self), false),
    {
        self.error_count = self.error_count + 1;
    }

    pub fn get_stats(&self) -> (r: (usize, usize))
        ensures
            r.0 == self.success_count,
            r.1 == self.error_count,
    {
        (self.success_count, self.error_count)
    }

    /// Whether a batch wait is due after finishing the item at this index:
    /// at every batch boundary except when no items remain.
    pub fn should_wait_after(&self, index: usize) -> (r: bool)
        requires
            self.batch_size >= 1,
            index < self.total_pages,
        ensures
            r == ((index + 1) % self.batch_size as int == 0 && index + 1 < self.total_pages),
    {
        (index + 1) % self.batch_size == 0 && index + 1 < self.total_pages
    }
}

/// One counting step: one item's terminal outcome enters the tally.
pub open spec fn spec_record(t: ProgressTracker, success: bool) -> ProgressTracker {
    if success {
        ProgressTracker { success_count: (t.success_count + 1) as usize, ..t }
    } else {
        ProgressTracker { error_count: (t.error_count + 1) as usize, ..t }
    }
}

/// The tracker after recording each outcome of a run, in order.
pub open spec fn spec_run(t: ProgressTracker, outcomes: Seq<bool>) -> ProgressTracker
    decreases outcomes.len(),
{
    if outcomes.len() == 0 {
        t
    } else {
        spec_record(spec_run(t, outcomes.drop_last()), outcomes.last())
    }
}

/// How many of the outcomes are successes.
pub open spec fn count_true(s: Seq<bool>) -> int
    decreases s.len(),
{
    if s.len() == 0 {
        0
    } else {
        count_true(s.drop_last()) + (if s.last() {
            1int
        } else {
            0int
        })
    }
}

/// Every item of a completed run is counted exactly once: starting from
/// fresh counters, recording each item's terminal outcome once leaves the
/// tally at exactly the run's success and failure counts.
pub proof fn lemma_run_tally(t: ProgressTracker, outcomes: Seq<bool>)
    requires
        t.success_count == 0,
        t.error_count == 0,
        outcomes.len() <= t.total_pages,
    ensures
        spec_run(t, outcomes).success_count == count_true(outcomes),
        spec_run(t, outcomes).success_count + spec_run(t, outcomes).error_count == outcomes.len(),
        spec_run(t, outcomes).total_pages == t.total_pages,
        spec_run(t, outcomes).wf(),
    decreases outcomes.len(),
{
    if outcomes.len() > 0 {
        lemma_run_tally(t, outcomes.drop_last());
        let before = spec_run(t, outcomes.drop_last());
        assert(count_true(outcomes.drop_last()) >= 0) by {
            lemma_count_true_bounds(outcomes.drop_last());
        }
        assert(before.success_count + before.error_count == outcomes.len() - 1);
    }
}

/// The success count of a run lies between zero and its length.
pub proof fn lemma_count_true_bounds(s: Seq<bool>)
    ensures
        0 <= count_true(s) <= s.len(),
    decreases s.len(),
{
    if s.len() > 0 {
        lemma_count_true_bounds(s.drop_last());
    }
}

} // verus!
