use word_pipeline::aggregator::{AcceptOutcome, Aggregator, PartialResult, SubOutcome};
use word_pipeline::pipeline::{
    execute, run, Config, Controller, FailureReason, ItemStatus, SourceEntry, Summary, Tally,
};
use word_pipeline::split::{split_payload, SplitStrategy};
use word_pipeline::transform::{count_matches, FanOutPool, Matcher, SetupError};

const THE: &str = r"(?i)\bthe\b";

fn read(name: &str, text: &str) -> SourceEntry {
    SourceEntry::Read { name: name.to_string(), payload: text.as_bytes().to_vec() }
}

fn unreadable(name: &str) -> SourceEntry {
    SourceEntry::Unreadable { name: name.to_string() }
}

fn three_items() -> Vec<SourceEntry> {
    vec![
        read("item1", "the cat the dog"),
        read("item2", "THE The the"),
        read("item3", "no match here"),
    ]
}

fn run_ok(entries: &Vec<SourceEntry>, workers: usize, strategy: SplitStrategy, cancel_at: Option<usize>) -> Summary {
    match run(entries, THE, Config { workers, strategy }, cancel_at) {
        Ok(s) => s,
        Err(e) => panic!("setup failed: {:?}", e),
    }
}

#[test]
fn word_counts_per_item_for_any_worker_count() {
    let entries = three_items();
    for workers in [1usize, 4, 16] {
        for strategy in [SplitStrategy::ByLine, SplitStrategy::WholeItem] {
            let s = run_ok(&entries, workers, strategy, None);
            assert_eq!(s.finalized_totals(), vec![(0, 2), (1, 3), (2, 0)]);
            assert_eq!(s.tally(), Tally { succeeded: 3, failed: 0, cancelled: 0 });
        }
    }
}

#[test]
fn multi_line_items_sum_their_lines() {
    let entries = vec![
        read("a", "The end.\nthe start\nthere then\nbathe the"),
        read("b", "\n\nthe\n"),
        read("c", ""),
    ];
    for workers in [1usize, 3] {
        let s = run_ok(&entries, workers, SplitStrategy::ByLine, None);
        assert_eq!(s.finalized_totals(), vec![(0, 3), (1, 1), (2, 0)]);
        let whole = run_ok(&entries, workers, SplitStrategy::WholeItem, None);
        assert_eq!(whole.finalized_totals(), s.finalized_totals());
    }
}

#[test]
fn unreadable_item_is_reported_failed() {
    let entries = vec![read("item1", "the cat the dog"), unreadable("item2"), read("item3", "the")];
    let s = run_ok(&entries, 2, SplitStrategy::ByLine, None);
    assert_eq!(s.tally(), Tally { succeeded: 2, failed: 1, cancelled: 0 });
    assert_eq!(s.finalized_totals(), vec![(0, 2), (2, 1)]);
    assert_eq!(s.items[1].status, ItemStatus::Failed(FailureReason::Unreadable));
    assert_eq!(s.items[1].name, "item2");
}

#[test]
fn cancellation_mid_run_accounts_for_every_item() {
    let entries: Vec<SourceEntry> = (0..10).map(|i| read(&format!("f{}", i), "the the\nthe")).collect();
    let s = run_ok(&entries, 4, SplitStrategy::ByLine, Some(4));
    let t = s.tally();
    assert_eq!(t.succeeded + t.failed + t.cancelled, 10);
    assert_eq!(t, Tally { succeeded: 4, failed: 0, cancelled: 6 });
    for (k, item) in s.items.iter().enumerate() {
        assert_eq!(item.id, k as u64);
        if k < 4 {
            assert_eq!(item.status, ItemStatus::Succeeded { total: 3, errors: 0 });
        } else {
            assert_eq!(item.status, ItemStatus::Cancelled);
        }
    }
}

#[test]
fn cancellation_before_start_cancels_everything() {
    let entries = vec![read("a", "the"), unreadable("b")];
    let s = run_ok(&entries, 1, SplitStrategy::ByLine, Some(0));
    assert_eq!(s.tally(), Tally { succeeded: 0, failed: 0, cancelled: 2 });
}

#[test]
fn completes_every_item_without_failures() {
    let entries: Vec<SourceEntry> = (0..7).map(|i| read(&format!("f{}", i), "x the y")).collect();
    let s = run_ok(&entries, 3, SplitStrategy::FixedChunk(4), None);
    assert_eq!(s.tally().succeeded, 7);
    assert_eq!(s.finalized_totals().len(), 7);
}

#[test]
fn fixed_chunks_can_cut_a_word() {
    // "x the y" in chunks of 4 is "x th" and "e y": the word is cut apart.
    let entries = vec![read("a", "x the y")];
    let s = run_ok(&entries, 2, SplitStrategy::FixedChunk(4), None);
    assert_eq!(s.finalized_totals(), vec![(0, 0)]);
    let s = run_ok(&entries, 2, SplitStrategy::FixedChunk(5), None);
    assert_eq!(s.finalized_totals(), vec![(0, 1)]);
}

#[test]
fn invalid_pattern_and_zero_workers_are_refused() {
    let entries = three_items();
    let r = run(&entries, "(the", Config { workers: 2, strategy: SplitStrategy::ByLine }, None);
    assert!(matches!(r, Err(SetupError::InvalidPattern)));
    let r = run(&entries, THE, Config { workers: 0, strategy: SplitStrategy::ByLine }, None);
    assert!(matches!(r, Err(SetupError::NoWorkers)));
    assert!(matches!(Matcher::new("a)"), Err(SetupError::InvalidPattern)));
    assert!(matches!(FanOutPool::new(0), Err(SetupError::NoWorkers)));
}

#[test]
fn matcher_counts_matches() {
    let m = Matcher::new(THE).unwrap();
    assert_eq!(m.as_str(), THE);
    assert_eq!(count_matches(&m, &b"The theme of the THE".to_vec()), 3);
    assert_eq!(count_matches(&m, &Vec::new()), 0);
}

#[test]
fn pool_counts_keep_unit_order() {
    let m = Matcher::new(THE).unwrap();
    let pool = FanOutPool::new(4).unwrap();
    assert_eq!(pool.workers(), 4);
    let units: Vec<Vec<u8>> = vec![b"the".to_vec(), b"".to_vec(), b"the the the".to_vec(), b"the the".to_vec()];
    assert_eq!(pool.counts(&m, &units), vec![1, 0, 3, 2]);
}

#[test]
fn execute_with_prepared_matcher_and_pool() {
    let m = Matcher::new(THE).unwrap();
    let pool = FanOutPool::new(1).unwrap();
    let s = execute(&three_items(), &m, &pool, SplitStrategy::ByLine, None);
    assert_eq!(s.items.len(), 3);
    assert_eq!(s.items[2].name, "item3");
    assert_eq!(s.items[0].status, ItemStatus::Succeeded { total: 2, errors: 0 });
}

#[test]
fn split_by_line_keeps_empty_lines() {
    let units = split_payload(b"a\n\nbc\n", SplitStrategy::ByLine);
    assert_eq!(units, vec![b"a".to_vec(), b"".to_vec(), b"bc".to_vec(), b"".to_vec()]);
    assert_eq!(split_payload(b"", SplitStrategy::ByLine), vec![Vec::<u8>::new()]);
}

#[test]
fn split_fixed_chunks_and_whole() {
    let units = split_payload(b"abcdefg", SplitStrategy::FixedChunk(3));
    assert_eq!(units, vec![b"abc".to_vec(), b"def".to_vec(), b"g".to_vec()]);
    assert_eq!(split_payload(b"abcdef", SplitStrategy::FixedChunk(3)), vec![b"abc".to_vec(), b"def".to_vec()]);
    assert_eq!(split_payload(b"ab\ncd", SplitStrategy::WholeItem), vec![b"ab\ncd".to_vec()]);
    assert_eq!(split_payload(b"abc", SplitStrategy::FixedChunk(0)), vec![b"abc".to_vec()]);
    assert_eq!(split_payload(b"", SplitStrategy::FixedChunk(2)), vec![Vec::<u8>::new()]);
}

fn pr(item: u64, index: usize, expected: usize, v: u64) -> PartialResult {
    PartialResult { item, index, expected, outcome: SubOutcome::Count(v) }
}

#[test]
fn aggregator_finalizes_once_after_all_units() {
    let mut agg = Aggregator::new();
    assert_eq!(agg.accept(pr(7, 1, 3, 5)), AcceptOutcome::Recorded);
    assert_eq!(agg.accept(pr(7, 0, 3, 2)), AcceptOutcome::Recorded);
    assert_eq!(agg.accept(pr(9, 0, 1, 4)), AcceptOutcome::Finalized { total: 4, errors: 0 });
    assert_eq!(agg.accept(pr(7, 2, 3, 1)), AcceptOutcome::Finalized { total: 8, errors: 0 });
    assert_eq!(agg.accept(pr(7, 2, 3, 1)), AcceptOutcome::Duplicate);
    assert_eq!(agg.accept(pr(7, 0, 3, 100)), AcceptOutcome::Duplicate);
}

#[test]
fn aggregator_ignores_duplicate_delivery() {
    let mut agg = Aggregator::new();
    assert_eq!(agg.accept(pr(1, 0, 2, 3)), AcceptOutcome::Recorded);
    assert_eq!(agg.accept(pr(1, 0, 2, 3)), AcceptOutcome::Duplicate);
    assert_eq!(agg.accept(pr(1, 1, 2, 4)), AcceptOutcome::Finalized { total: 7, errors: 0 });
}

#[test]
fn aggregator_rejects_inconsistent_results() {
    let mut agg = Aggregator::new();
    assert_eq!(agg.accept(pr(1, 2, 2, 3)), AcceptOutcome::Rejected);
    assert_eq!(agg.accept(pr(1, 0, 0, 3)), AcceptOutcome::Rejected);
    assert_eq!(agg.accept(pr(1, 0, 2, 3)), AcceptOutcome::Recorded);
    assert_eq!(agg.accept(pr(1, 1, 3, 3)), AcceptOutcome::Rejected);
    assert_eq!(agg.accept(pr(1, 1, 2, 1)), AcceptOutcome::Finalized { total: 4, errors: 0 });
}

#[test]
fn aggregator_counts_failed_units_as_zero() {
    let mut agg = Aggregator::new();
    let failed = PartialResult { item: 3, index: 1, expected: 3, outcome: SubOutcome::Failed };
    assert_eq!(agg.accept(failed), AcceptOutcome::Recorded);
    assert_eq!(agg.accept(pr(3, 0, 3, 6)), AcceptOutcome::Recorded);
    assert_eq!(agg.accept(pr(3, 2, 3, 1)), AcceptOutcome::Finalized { total: 7, errors: 1 });
}

#[test]
fn aggregator_total_goes_past_64_bits() {
    let mut agg = Aggregator::new();
    assert_eq!(agg.accept(pr(5, 0, 3, u64::MAX)), AcceptOutcome::Recorded);
    assert_eq!(agg.accept(pr(5, 1, 3, u64::MAX)), AcceptOutcome::Recorded);
    assert_eq!(
        agg.accept(pr(5, 2, 3, 2)),
        AcceptOutcome::Finalized { total: 2 * (u64::MAX as u128) + 2, errors: 0 }
    );
}

#[test]
fn controller_reports_entries_as_they_arrive() {
    let m = Matcher::new(THE).unwrap();
    let pool = FanOutPool::new(2).unwrap();
    let mut c = Controller::new();
    assert_eq!(c.on_entry(&read("a", "the the"), &m, &pool, SplitStrategy::ByLine), ItemStatus::Succeeded { total: 2, errors: 0 });
    assert_eq!(c.on_entry(&unreadable("b"), &m, &pool, SplitStrategy::ByLine), ItemStatus::Failed(FailureReason::Unreadable));
    assert!(!c.is_cancelled());
    c.cancel();
    assert!(c.is_cancelled());
    assert_eq!(c.on_entry(&read("c", "the"), &m, &pool, SplitStrategy::ByLine), ItemStatus::Cancelled);
    let s = c.finish();
    assert_eq!(s.tally(), Tally { succeeded: 1, failed: 1, cancelled: 1 });
    assert_eq!(s.items[2].id, 2);
}
