use markdown_downloader::progress::ProgressTracker;
use markdown_downloader::scheduler::{
    advance_item, concurrency_cap, plan_batches, tally_outcomes, waits_between, ItemEvent,
    ItemStep,
};
use markdown_downloader::types::PipelineOutcome;

#[test]
fn twenty_five_urls_make_three_batches_and_two_waits() {
    let batches = plan_batches(25, 10);
    assert_eq!(batches.len(), 3);
    assert_eq!((batches[0].start, batches[0].len), (0, 10));
    assert_eq!((batches[1].start, batches[1].len), (10, 10));
    assert_eq!((batches[2].start, batches[2].len), (20, 5));
    assert_eq!(waits_between(batches.len()), 2);
    assert_eq!(concurrency_cap(3), 3);
    let covered: usize = batches.iter().map(|b| b.len).sum();
    assert_eq!(covered, 25);
}

#[test]
fn every_item_reaches_a_terminal_outcome() {
    // 25 items driven through the per-item state machine, with a mixed set
    // of events: every item ends in a terminal outcome, and the tally
    // accounts for all of them
    let mut outcomes: Vec<PipelineOutcome> = Vec::new();
    for i in 0..25usize {
        let mut step = ItemStep::Convert;
        let converted = ItemEvent::Converted(b"content".to_vec());
        step = advance_item(step, converted, true);
        step = match i % 3 {
            0 => advance_item(step, ItemEvent::Translated(b"t".to_vec()), true),
            1 => advance_item(step, ItemEvent::TranslationError(b"boom".to_vec()), true),
            _ => advance_item(step, ItemEvent::Translated(b"t".to_vec()), true),
        };
        if let ItemStep::Persist { .. } = step {
            step = advance_item(step, ItemEvent::Saved(vec![b"f.md".to_vec()]), true);
        }
        match step {
            ItemStep::Done(o) => outcomes.push(o),
            _ => panic!("item did not reach a terminal outcome"),
        }
    }
    assert_eq!(outcomes.len(), 25);
    let stats = tally_outcomes(&outcomes);
    assert_eq!(stats.successes + stats.failures, 25);
    assert_eq!(stats.failures, 8);
}

#[test]
fn batch_sizes_divide_evenly() {
    let batches = plan_batches(20, 10);
    assert_eq!(batches.len(), 2);
    assert_eq!((batches[1].start, batches[1].len), (10, 10));
}

#[test]
fn no_items_no_batches() {
    assert!(plan_batches(0, 10).is_empty());
    assert_eq!(waits_between(0), 0);
}

#[test]
fn concurrency_is_capped_at_three() {
    assert_eq!(concurrency_cap(1), 1);
    assert_eq!(concurrency_cap(2), 2);
    assert_eq!(concurrency_cap(10), 3);
    assert_eq!(concurrency_cap(100), 3);
}

#[test]
fn conversion_failure_is_terminal() {
    let step = advance_item(ItemStep::Convert, ItemEvent::ConversionError(b"404".to_vec()), true);
    match step {
        ItemStep::Done(PipelineOutcome::ConversionFailed(m)) => assert_eq!(m, b"404".to_vec()),
        _ => panic!("expected a terminal conversion failure"),
    }
}

#[test]
fn conversion_skips_translation_when_disabled() {
    let step = advance_item(ItemStep::Convert, ItemEvent::Converted(b"c".to_vec()), false);
    match step {
        ItemStep::Persist { original, translated } => {
            assert_eq!(original, b"c".to_vec());
            assert!(translated.is_none());
        },
        _ => panic!("expected to move straight to persistence"),
    }
}

#[test]
fn save_failure_is_terminal() {
    let step = ItemStep::Persist { original: b"o".to_vec(), translated: None };
    match advance_item(step, ItemEvent::SaveError(b"disk".to_vec()), false) {
        ItemStep::Done(PipelineOutcome::PersistFailed(m)) => assert_eq!(m, b"disk".to_vec()),
        _ => panic!("expected a terminal persist failure"),
    }
}

#[test]
fn mismatched_event_leaves_the_step_alone() {
    let step = advance_item(ItemStep::Convert, ItemEvent::Translated(b"t".to_vec()), true);
    assert!(matches!(step, ItemStep::Convert));
    let step = advance_item(
        ItemStep::Done(PipelineOutcome::ConversionFailed(b"x".to_vec())),
        ItemEvent::Saved(vec![]),
        true,
    );
    assert!(matches!(step, ItemStep::Done(PipelineOutcome::ConversionFailed(_))));
}

#[test]
fn tracker_counts_successes_and_errors() {
    let mut p = ProgressTracker::new(5, 2, 60, 500);
    p.record_success();
    p.record_success();
    p.record_error();
    assert_eq!(p.get_stats(), (2, 1));
}

#[test]
fn tracker_waits_at_batch_boundaries_only() {
    let p = ProgressTracker::new(5, 2, 60, 500);
    assert!(!p.should_wait_after(0));
    assert!(p.should_wait_after(1));
    assert!(!p.should_wait_after(2));
    assert!(p.should_wait_after(3));
    // the last item never triggers a wait
    assert!(!p.should_wait_after(4));
}
