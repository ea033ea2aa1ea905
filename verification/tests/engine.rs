use save_scummer::save_storage::{SaveStorage, DRAIN_BUDGET};
use save_scummer::storage::Storage;
use save_scummer::time_budget::TimeBudget;

fn capture(path: &str, time: u128, data: &[u8]) -> (String, u128, Vec<u8>) {
    (path.to_string(), time, data.to_vec())
}

fn version_times(engine: &SaveStorage, path: &str) -> Vec<u128> {
    engine.save_versions(path).iter().map(|version| *version.time()).collect()
}

fn listing(engine: &SaveStorage) -> Vec<(String, u128)> {
    engine.save_files().iter().map(|file| (file.path().clone(), *file.time())).collect()
}

fn drain_fully(engine: &mut SaveStorage) -> bool {
    let mut stored = false;
    let mut rounds = 0;
    while engine.pending_count() > 0 {
        let before = engine.pending_count();
        stored |= engine.update();
        assert!(engine.pending_count() < before);
        rounds += 1;
        assert!(rounds <= 1000);
    }
    stored
}

#[test]
fn new_engine_has_the_store_and_nothing_queued() {
    let mut storage = Storage::empty();
    storage.apply_update(capture("a", 1, b"A"));
    let mut engine = SaveStorage::new(storage);
    assert_eq!(engine.pending_count(), 0);
    assert_eq!(listing(&engine), vec![("a".to_string(), 1)]);
    assert!(!engine.update());
    assert_eq!(listing(&engine), vec![("a".to_string(), 1)]);
}

#[test]
fn drain_of_an_empty_queue_stores_nothing() {
    let mut engine = SaveStorage::new(Storage::empty());
    assert!(!engine.update());
    assert!(!engine.update_within(&TimeBudget::new(0)));
    assert!(engine.save_files().is_empty());
}

#[test]
fn queued_captures_are_stored_by_a_drain() {
    let mut engine = SaveStorage::new(Storage::empty());
    engine.enqueue(capture("a", 1, b"A"));
    assert_eq!(engine.pending_count(), 1);
    assert!(engine.save_files().is_empty());
    assert!(drain_fully(&mut engine));
    assert_eq!(engine.data_of("a", &1), Some(&b"A"[..]));
}

#[test]
fn suppressed_capture_is_discarded_and_the_next_is_stored() {
    let mut storage = Storage::empty();
    storage.apply_update(capture("p", 1, b"A"));
    let mut engine = SaveStorage::new(storage);
    engine.add_ignore_record("p".to_string());
    engine.enqueue(capture("p", 2, b"own write"));
    let budget = TimeBudget::new(0);
    assert!(!engine.update_within(&budget));
    assert_eq!(engine.pending_count(), 0);
    assert_eq!(version_times(&engine, "p"), vec![1]);
    assert_eq!(engine.data_of("p", &2), None);
    engine.enqueue(capture("p", 3, b"B"));
    assert!(engine.update_within(&budget));
    assert_eq!(version_times(&engine, "p"), vec![3, 1]);
    assert_eq!(engine.data_of("p", &3), Some(&b"B"[..]));
}

#[test]
fn suppression_is_for_one_path_only() {
    let mut engine = SaveStorage::new(Storage::empty());
    engine.add_ignore_record("p".to_string());
    engine.enqueue(capture("q", 1, b"Q"));
    engine.enqueue(capture("p", 2, b"own write"));
    engine.enqueue(capture("p", 3, b"P"));
    assert!(drain_fully(&mut engine));
    assert_eq!(version_times(&engine, "q"), vec![1]);
    assert_eq!(version_times(&engine, "p"), vec![3]);
}

#[test]
fn suppression_marked_twice_is_consumed_once() {
    let mut engine = SaveStorage::new(Storage::empty());
    engine.add_ignore_record("p".to_string());
    engine.add_ignore_record("p".to_string());
    engine.enqueue(capture("p", 1, b"own write"));
    engine.enqueue(capture("p", 2, b"P"));
    assert!(drain_fully(&mut engine));
    assert_eq!(version_times(&engine, "p"), vec![2]);
}

#[test]
fn drain_without_time_stops_at_the_first_stored_capture() {
    let mut engine = SaveStorage::new(Storage::empty());
    engine.enqueue(capture("a", 1, b"1"));
    engine.enqueue(capture("a", 2, b"2"));
    engine.enqueue(capture("b", 3, b"3"));
    let budget = TimeBudget::new(0);
    assert!(engine.update_within(&budget));
    assert_eq!(engine.pending_count(), 2);
    assert_eq!(version_times(&engine, "a"), vec![1]);
    assert!(engine.update_within(&budget));
    assert_eq!(engine.pending_count(), 1);
    assert_eq!(version_times(&engine, "a"), vec![2, 1]);
    assert!(version_times(&engine, "b").is_empty());
    assert!(engine.update_within(&budget));
    assert_eq!(engine.pending_count(), 0);
    assert_eq!(version_times(&engine, "b"), vec![3]);
    assert!(!engine.update_within(&budget));
}

#[test]
fn drain_without_time_passes_over_suppressed_captures() {
    let mut engine = SaveStorage::new(Storage::empty());
    engine.add_ignore_record("a".to_string());
    engine.add_ignore_record("b".to_string());
    engine.enqueue(capture("a", 1, b"own"));
    engine.enqueue(capture("b", 2, b"own"));
    engine.enqueue(capture("a", 3, b"A"));
    engine.enqueue(capture("b", 4, b"B"));
    let budget = TimeBudget::new(0);
    assert!(engine.update_within(&budget));
    assert_eq!(engine.pending_count(), 1);
    assert_eq!(listing(&engine), vec![("a".to_string(), 3)]);
    assert!(engine.update_within(&budget));
    assert_eq!(listing(&engine), vec![("b".to_string(), 4), ("a".to_string(), 3)]);
}

#[test]
fn deferred_captures_are_stored_in_the_order_of_the_queue() {
    let mut stepwise = SaveStorage::new(Storage::empty());
    let mut at_once = Storage::empty();
    let captures = [
        capture("a", 5, b"first"),
        capture("b", 1, b"b"),
        capture("a", 5, b"second"),
        capture("a", 2, b"older"),
    ];
    for update in captures.iter().cloned() {
        stepwise.enqueue(update.clone());
        at_once.apply_update(update);
    }
    let budget = TimeBudget::new(0);
    let mut rounds = 0;
    while stepwise.pending_count() > 0 {
        assert!(stepwise.update_within(&budget));
        rounds += 1;
    }
    assert_eq!(rounds, 4);
    assert_eq!(stepwise.data_of("a", &5), Some(&b"second"[..]));
    assert_eq!(stepwise.serialize(), at_once.serialize());
}

#[test]
fn drain_within_the_cycle_budget_loses_nothing() {
    let mut engine = SaveStorage::new(Storage::empty());
    for time in 0..200u128 {
        engine.enqueue(capture("a", time, &[time as u8]));
    }
    assert!(drain_fully(&mut engine));
    assert_eq!(version_times(&engine, "a").len(), 200);
    for time in 0..200u128 {
        assert_eq!(engine.data_of("a", &time), Some(&[time as u8][..]));
    }
}

#[test]
fn the_cycle_budget_is_one_millisecond() {
    assert_eq!(DRAIN_BUDGET, 1_000_000);
}

#[test]
fn revert_marks_the_path_and_gives_the_bytes() {
    let mut storage = Storage::empty();
    storage.apply_update(capture("p", 1, b"A"));
    storage.apply_update(capture("p", 2, b"B"));
    let mut engine = SaveStorage::new(storage);
    assert_eq!(engine.revert("p", 1), Some(b"A".to_vec()));
    engine.enqueue(capture("p", 3, b"A"));
    assert!(!engine.update());
    assert_eq!(version_times(&engine, "p"), vec![2, 1]);
}

#[test]
fn revert_to_an_unknown_version_changes_nothing() {
    let mut storage = Storage::empty();
    storage.apply_update(capture("p", 1, b"A"));
    let mut engine = SaveStorage::new(storage);
    assert_eq!(engine.revert("p", 9), None);
    assert_eq!(engine.revert("q", 1), None);
    engine.enqueue(capture("p", 3, b"B"));
    engine.enqueue(capture("q", 4, b"C"));
    assert!(drain_fully(&mut engine));
    assert_eq!(version_times(&engine, "p"), vec![3, 1]);
    assert_eq!(version_times(&engine, "q"), vec![4]);
}

#[test]
fn engine_snapshot_holds_the_store_only() {
    let mut engine = SaveStorage::new(Storage::empty());
    engine.enqueue(capture("a", 1, b"A"));
    assert!(drain_fully(&mut engine));
    engine.add_ignore_record("b".to_string());
    engine.enqueue(capture("c", 2, b"C"));
    let bytes = engine.serialize().expect("a store can be written");
    let read = Storage::read_saves_from_serialized(&bytes).expect("its bytes can be read");
    let files: Vec<String> = read.save_files().iter().map(|file| file.path().clone()).collect();
    assert_eq!(files, vec!["a".to_string()]);
}

#[test]
fn end_to_end_capture_and_revert() {
    let t1: u128 = 1_700_000_000_000_000_000;
    let t2: u128 = 1_700_000_060_000_000_000;
    let t3: u128 = 1_700_000_120_000_000_000;
    let path = "save1.ck3";
    // No snapshot file yet: the directory scan gives the store.
    let storage = Storage::read_saves(None, Some(vec![capture(path, t1, b"A")]));
    let mut engine = SaveStorage::new(storage);
    assert_eq!(listing(&engine), vec![(path.to_string(), t1)]);
    assert_eq!(engine.data_of(path, &t1), Some(&b"A"[..]));
    // The game writes new content.
    engine.enqueue(capture(path, t2, b"B"));
    assert!(drain_fully(&mut engine));
    assert_eq!(version_times(&engine, path), vec![t2, t1]);
    assert_eq!(engine.data_of(path, &t2), Some(&b"B"[..]));
    let persisted = engine.serialize().expect("a store can be written");
    // The user reverts to the first version; the write comes back as a capture.
    let written = engine.revert(path, t1).expect("the version is stored");
    assert_eq!(written, b"A".to_vec());
    engine.enqueue(capture(path, t3, &written));
    assert!(!drain_fully(&mut engine));
    assert_eq!(version_times(&engine, path), vec![t2, t1]);
    assert_eq!(engine.data_of(path, &t1), Some(&b"A"[..]));
    assert_eq!(engine.data_of(path, &t2), Some(&b"B"[..]));
    assert_eq!(engine.data_of(path, &t3), None);
    assert_eq!(engine.serialize(), Ok(persisted.clone()));
    // The snapshot written after the drain holds the same store at the next start.
    let restarted = SaveStorage::new(Storage::read_saves(Some(persisted), None));
    assert_eq!(version_times(&restarted, path), vec![t2, t1]);
}

#[test]
fn budget_is_used_up_once_its_time_has_passed() {
    let budget = TimeBudget::new(1_000);
    assert!(!budget.is_expired_after(0));
    assert!(!budget.is_expired_after(999));
    assert!(budget.is_expired_after(1_000));
    assert!(budget.is_expired_after(u128::MAX));
}

#[test]
fn budget_of_no_time_is_used_up_at_once() {
    let budget = TimeBudget::new(0);
    assert!(budget.is_expired());
    assert!(budget.is_expired_after(0));
}

#[test]
fn budget_of_an_hour_is_not_used_up_at_once() {
    let budget = TimeBudget::new(3_600_000_000_000);
    assert!(!budget.is_expired());
}

#[test]
fn budget_is_used_up_after_waiting() {
    let budget = TimeBudget::new(2_000_000);
    let start = std::time::Instant::now();
    while start.elapsed() < std::time::Duration::from_millis(5) {
        std::hint::spin_loop();
    }
    assert!(budget.is_expired());
}

#[test]
fn ingest_stores_a_capture_that_is_not_ignored() {
    let mut engine = SaveStorage::new(Storage::empty());
    assert!(engine.ingest(capture("p", 1, b"A")));
    assert_eq!(engine.data_of("p", &1), Some(&b"A"[..]));
    assert!(engine.ingest(capture("p", 1, b"B")));
    assert_eq!(engine.data_of("p", &1), Some(&b"B"[..]));
    assert_eq!(version_times(&engine, "p"), vec![1]);
}

#[test]
fn ingest_discards_one_capture_for_an_ignored_path() {
    let mut engine = SaveStorage::new(Storage::empty());
    engine.add_ignore_record("p".to_string());
    assert!(engine.ingest(capture("q", 1, b"Q")));
    assert!(!engine.ingest(capture("p", 2, b"own write")));
    assert!(version_times(&engine, "p").is_empty());
    assert!(engine.ingest(capture("p", 3, b"P")));
    assert_eq!(version_times(&engine, "p"), vec![3]);
    assert_eq!(version_times(&engine, "q"), vec![1]);
}

#[test]
fn ingest_leaves_the_queue_alone() {
    let mut engine = SaveStorage::new(Storage::empty());
    engine.enqueue(capture("p", 1, b"queued"));
    assert!(engine.ingest(capture("p", 2, b"direct")));
    assert_eq!(engine.pending_count(), 1);
    assert_eq!(version_times(&engine, "p"), vec![2]);
}
