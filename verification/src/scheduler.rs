//! Batch scheduling decisions.
//!
//! The run partitions the filtered URL list into consecutive batches,
//! sleeps between batches (never before the first), and caps in-flight
//! items at a small constant regardless of the batch size. The waiting,
//! dispatching and joining are performed outside the library; the
//! decisions are verified here, as is the per-item pipeline's state
//! machine and the final tally.

use vstd::prelude::*;

use crate::types::PipelineOutcome;

verus! {

/// One batch: the index of its first item and the number of its items.
pub struct Batch {
    pub start: usize,
    pub len: usize,
}

/// Partition `total` items into consecutive batches of `batch_size`, the
/// last one smaller when the items do not divide evenly. Every item falls
/// in exactly one batch, in order.
pub fn plan_batches(total: usize, batch_size: usize) -> (r: Vec<Batch>)
    requires
        batch_size >= 1,
    ensures
        r@.len() == (total + batch_size - 1) as int / batch_size as int,
        forall|i: int| 0 <= i < r@.len() ==> (#[trigger] r@[i]).start == i * batch_size as int,
        forall|i: int|
            0 <= i < r@.len() ==> (#[trigger] r@[i]).len == (if r@[i].start + batch_size <= total {
                batch_size as int
            } else {
                total - r@[i].start
            }),
        forall|i: int| 0 <= i < r@.len() ==> (#[trigger] r@[i]).len > 0,
        r@.len() > 0 ==> r@[r@.len() - 1].start + r@[r@.len() - 1].len == total,
        total == 0 ==> r@.len() == 0,
{
    let mut r: Vec<Batch> = Vec::new();
    let mut start: usize = 0;
    proof {
        assert(0int * batch_size as int == 0) by (nonlinear_arith);
    }
    while start < total
        invariant
            batch_size >= 1,
            start <= total,
            start == r@.len() * batch_size as int || start == total,
            r@.len() == 0 ==> start == 0,
            forall|i: int| 0 <= i < r@.len() ==> (#[trigger] r@[i]).start == i * batch_size as int,
            forall|i: int|
                0 <= i < r@.len() ==> (#[trigger] r@[i]).len == (
                if r@[i].start + batch_size <= total {
                    batch_size as int
                } else {
                    total - r@[i].start
                }),
            forall|i: int| 0 <= i < r@.len() ==> (#[trigger] r@[i]).len > 0,
            r@.len() > 0 ==> r@[r@.len() - 1].start + r@[r@.len() - 1].len == start,
        decreases total - start,
    {
        let len = if total - start >= batch_size {
            batch_size
        } else {
            total - start
        };
        let ghost pre = r@;
        proof {
            assert(start == pre.len() * batch_size as int);
        }
        r.push(Batch { start, len });
        proof {
            assert(r@.len() * batch_size as int == pre.len() * batch_size as int + batch_size)
                by (nonlinear_arith)
                requires
                    r@.len() == pre.len() + 1,
            ;
        }
        start = start + len;
    }
    proof {
        // the number of batches is the rounded-up quotient
        let n = r@.len() as int;
        let b = batch_size as int;
        if n == 0 {
            assert(total == 0);
            assert((total + batch_size - 1) as int / b == (b - 1) / b);
            vstd::arithmetic::div_mod::lemma_basic_div(b - 1, b);
        } else {
            let last = r@[n - 1];
            assert(last.start == (n - 1) * b);
            assert(last.start + last.len == total);
            assert(0 < last.len <= b);
            assert((total + b - 1) / b == n) by (nonlinear_arith)
                requires
                    b >= 1,
                    total == (n - 1) * b + last.len,
                    0 < last.len <= b,
            ;
        }
    }
    r
}

/// The number of inter-batch waits of a run: one between every two batches,
/// none before the first.
pub fn waits_between(n_batches: usize) -> (r: usize)
    ensures
        r == (if n_batches > 0 {
            n_batches - 1
        } else {
            0int
        }),
{
    if n_batches > 0 {
        n_batches - 1
    } else {
        0
    }
}

/// The in-flight cap of a batch: the batch size, but never more than three,
/// to protect the external services from bursty load.
pub fn concurrency_cap(batch_size: usize) -> (r: usize)
    ensures
        r == (if batch_size < 3 {
            batch_size as int
        } else {
            3int
        }),
{
    if batch_size < 3 {
        batch_size
    } else {
        3
    }
}

/// Where one work item stands: about to be converted, converted and
/// awaiting translation, ready to be persisted, or finished.
pub enum ItemStep {
    Convert,
    Translate(Vec<u8>),
    Persist { original: Vec<u8>, translated: Option<Vec<u8>> },
    Done(PipelineOutcome),
}

/// What the outside work reported back for the current step.
pub enum ItemEvent {
    Converted(Vec<u8>),
    ConversionError(Vec<u8>),
    Translated(Vec<u8>),
    TranslationError(Vec<u8>),
    Saved(Vec<Vec<u8>>),
    SaveError(Vec<u8>),
}

/// The event answers the item's current step.
pub open spec fn answers(step: ItemStep, event: ItemEvent) -> bool {
    ||| step is Convert && (event is Converted || event is ConversionError)
    ||| step is Translate && (event is Translated || event is TranslationError)
    ||| step is Persist && (event is Saved || event is SaveError)
}

/// Advance one work item: a conversion feeds translation (when enabled) or
/// persistence; any failure is terminal for the item alone; a save ends the
/// item. An event that does not answer the current step leaves it alone.
pub fn advance_item(step: ItemStep, event: ItemEvent, translation_enabled: bool) -> (r: ItemStep)
    ensures
        !answers(step, event) ==> r == step,
        step is Convert ==> (event matches ItemEvent::Converted(c) ==> (if translation_enabled {
            r == ItemStep::Translate(c)
        } else {
            r == (ItemStep::Persist { original: c, translated: None })
        })),
        step is Convert ==> (event matches ItemEvent::ConversionError(e) ==> r == ItemStep::Done(
            PipelineOutcome::ConversionFailed(e),
        )),
        step matches ItemStep::Translate(o) ==> (event matches ItemEvent::Translated(t) ==> r == (
        ItemStep::Persist { original: o, translated: Some(t) })),
        step is Translate ==> (event matches ItemEvent::TranslationError(e) ==> r == ItemStep::Done(
            PipelineOutcome::TranslationFailed(e),
        )),
        step is Persist ==> (event matches ItemEvent::Saved(files) ==> r == ItemStep::Done(
            PipelineOutcome::Saved(files),
        )),
        step is Persist ==> (event matches ItemEvent::SaveError(e) ==> r == ItemStep::Done(
            PipelineOutcome::PersistFailed(e),
        )),
{
    match (step, event) {
        (ItemStep::Convert, ItemEvent::Converted(c)) => {
            if translation_enabled {
                ItemStep::Translate(c)
            } else {
                ItemStep::Persist { original: c, translated: None }
            }
        },
        (ItemStep::Convert, ItemEvent::ConversionError(e)) => ItemStep::Done(
            PipelineOutcome::ConversionFailed(e),
        ),
        (ItemStep::Translate(o), ItemEvent::Translated(t)) => ItemStep::Persist {
            original: o,
            translated: Some(t),
        },
        (ItemStep::Translate(_), ItemEvent::TranslationError(e)) => ItemStep::Done(
            PipelineOutcome::TranslationFailed(e),
        ),
        (ItemStep::Persist { .. }, ItemEvent::Saved(files)) => ItemStep::Done(
            PipelineOutcome::Saved(files),
        ),
        (ItemStep::Persist { .. }, ItemEvent::SaveError(e)) => ItemStep::Done(
            PipelineOutcome::PersistFailed(e),
        ),
        (s, _) => s,
    }
}

/// The final tally of a run.
pub struct RunStats {
    pub successes: usize,
    pub failures: usize,
}

/// How many of the outcomes are successes.
pub open spec fn count_successes(s: Seq<PipelineOutcome>) -> int
    decreases s.len(),
{
    if s.len() == 0 {
        0
    } else {
        count_successes(s.drop_last()) + (if s.last() is Saved {
            1int
        } else {
            0int
        })
    }
}

/// Tally the terminal outcomes of a run: every item counts exactly once,
/// as a success or as a failure.
pub fn tally_outcomes(outcomes: &Vec<PipelineOutcome>) -> (r: RunStats)
    ensures
        r.successes == count_successes(outcomes@),
        r.successes + r.failures == outcomes@.len(),
{
    let mut successes: usize = 0;
    let mut failures: usize = 0;
    let mut i: usize = 0;
    while i < outcomes.len()
        invariant
            i <= outcomes@.len(),
            successes == count_successes(outcomes@.subrange(0, i as int)),
            successes + failures == i,
        decreases outcomes@.len() - i,
    {
        proof {
            assert(outcomes@.subrange(0, i + 1 as int).drop_last() =~= outcomes@.subrange(
                0,
                i as int,
            ));
            assert(outcomes@.subrange(0, i + 1 as int).last() == outcomes@[i as int]);
        }
        if outcomes[i].is_success() {
            successes = successes + 1;
        } else {
            failures = failures + 1;
        }
        i = i + 1;
    }
    proof {
        assert(outcomes@.subrange(0, outcomes@.len() as int) =~= outcomes@);
    }
    RunStats { successes, failures }
}

} // verus!
