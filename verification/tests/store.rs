use save_scummer::save_file::SaveFile;
use save_scummer::save_version::{time_from_parts, time_to_parts, SaveVersion, NANOS_PER_SECOND};
use save_scummer::storage::{SnapshotError, Storage};

fn capture(path: &str, time: u128, data: &[u8]) -> (String, u128, Vec<u8>) {
    (path.to_string(), time, data.to_vec())
}

fn times(versions: &[SaveVersion]) -> Vec<u128> {
    versions.iter().map(|version| *version.time()).collect()
}

fn listing(files: &[SaveFile]) -> Vec<(String, u128)> {
    files.iter().map(|file| (file.path().clone(), *file.time())).collect()
}

#[test]
fn empty_store_lists_nothing() {
    let storage = Storage::empty();
    assert!(storage.save_files().is_empty());
    assert!(storage.save_versions("save1.ck3").is_empty());
    assert_eq!(storage.data_of("save1.ck3", 1), None);
}

#[test]
fn stored_capture_is_found_by_path_and_time() {
    let mut storage = Storage::empty();
    storage.apply_update(capture("save1.ck3", 10, b"A"));
    assert_eq!(storage.data_of("save1.ck3", 10), Some(&b"A"[..]));
    assert_eq!(storage.data_of("save1.ck3", 11), None);
    assert_eq!(storage.data_of("save2.ck3", 10), None);
}

#[test]
fn same_path_and_time_twice_keeps_one_version_with_later_bytes() {
    let mut storage = Storage::empty();
    storage.apply_update(capture("save1.ck3", 10, b"first"));
    storage.apply_update(capture("save1.ck3", 10, b"second"));
    assert_eq!(times(&storage.save_versions("save1.ck3")), vec![10]);
    assert_eq!(storage.data_of("save1.ck3", 10), Some(&b"second"[..]));
}

#[test]
fn same_capture_twice_changes_nothing() {
    let mut once = Storage::empty();
    once.apply_update(capture("save1.ck3", 10, b"A"));
    let mut twice = Storage::empty();
    twice.apply_update(capture("save1.ck3", 10, b"A"));
    twice.apply_update(capture("save1.ck3", 10, b"A"));
    assert_eq!(listing(&once.save_files()), listing(&twice.save_files()));
    assert_eq!(times(&once.save_versions("save1.ck3")), times(&twice.save_versions("save1.ck3")));
    assert_eq!(once.serialize(), twice.serialize());
}

#[test]
fn versions_are_listed_most_recent_first() {
    let mut storage = Storage::empty();
    for time in [30u128, 10, 50, 20, 40] {
        storage.apply_update(capture("save1.ck3", time, &[time as u8]));
    }
    assert_eq!(times(&storage.save_versions("save1.ck3")), vec![50, 40, 30, 20, 10]);
    for time in [30u128, 10, 50, 20, 40] {
        assert_eq!(storage.data_of("save1.ck3", time), Some(&[time as u8][..]));
    }
}

#[test]
fn versions_of_one_file_do_not_show_under_another() {
    let mut storage = Storage::empty();
    storage.apply_update(capture("a", 1, b"a1"));
    storage.apply_update(capture("b", 2, b"b2"));
    storage.apply_update(capture("a", 3, b"a3"));
    assert_eq!(times(&storage.save_versions("a")), vec![3, 1]);
    assert_eq!(times(&storage.save_versions("b")), vec![2]);
    assert_eq!(storage.data_of("b", 1), None);
}

#[test]
fn files_are_listed_most_recent_first() {
    let mut storage = Storage::empty();
    storage.apply_update(capture("old", 5, b"x"));
    storage.apply_update(capture("new", 90, b"x"));
    storage.apply_update(capture("mid", 40, b"x"));
    storage.apply_update(capture("mid", 7, b"x"));
    storage.apply_update(capture("old", 2, b"x"));
    assert_eq!(
        listing(&storage.save_files()),
        vec![("new".to_string(), 90), ("mid".to_string(), 40), ("old".to_string(), 5)]
    );
}

#[test]
fn a_new_version_moves_its_file_to_the_front() {
    let mut storage = Storage::empty();
    storage.apply_update(capture("a", 10, b"x"));
    storage.apply_update(capture("b", 20, b"x"));
    assert_eq!(listing(&storage.save_files()), vec![("b".to_string(), 20), ("a".to_string(), 10)]);
    storage.apply_update(capture("a", 30, b"y"));
    assert_eq!(listing(&storage.save_files()), vec![("a".to_string(), 30), ("b".to_string(), 20)]);
}

#[test]
fn files_of_equal_recency_are_listed_in_the_order_of_their_paths() {
    let mut forward = Storage::empty();
    let mut backward = Storage::empty();
    let paths = ["b", "a", "ab", "", "c"];
    for path in paths {
        forward.apply_update(capture(path, 7, b"x"));
    }
    for path in paths.iter().rev() {
        backward.apply_update(capture(path, 7, b"x"));
    }
    let expected: Vec<(String, u128)> =
        ["", "a", "ab", "b", "c"].iter().map(|path| (path.to_string(), 7)).collect();
    assert_eq!(listing(&forward.save_files()), expected);
    assert_eq!(listing(&backward.save_files()), expected);
}

#[test]
fn snapshot_bytes_follow_the_byte_format() {
    let mut storage = Storage::empty();
    storage.apply_update(capture("a", 5, &[7]));
    assert_eq!(storage.serialize(), Ok(vec![1, 1, b'a', 1, 5, 1, 7]));
    storage.apply_update(capture("a", 300, &[8, 9]));
    assert_eq!(
        storage.serialize(),
        Ok(vec![1, 1, b'a', 2, 0xac, 0x02, 2, 8, 9, 5, 1, 7])
    );
    assert_eq!(Storage::empty().serialize(), Ok(vec![0]));
}

#[test]
fn snapshot_bytes_are_read_as_the_store_they_hold() {
    let storage =
        Storage::read_saves_from_serialized(&[1, 1, b'a', 2, 0xac, 0x02, 2, 8, 9, 5, 1, 7])
            .expect("a canonical snapshot");
    assert_eq!(listing(&storage.save_files()), vec![("a".to_string(), 300)]);
    assert_eq!(times(&storage.save_versions("a")), vec![300, 5]);
    assert_eq!(storage.data_of("a", 300), Some(&[8u8, 9][..]));
    assert_eq!(storage.data_of("a", 5), Some(&[7u8][..]));
}

#[test]
fn persistence_round_trip_keeps_every_entry() {
    let mut storage = Storage::empty();
    storage.apply_update(capture("save1.ck3", 1_700_000_000_000_000_000, b"A"));
    storage.apply_update(capture("save1.ck3", 1_700_000_000_500_000_000, b"B"));
    storage.apply_update(capture("save2.ck3", 3, &[]));
    storage.apply_update(capture("dir/save3.ck3", u128::MAX, &[0, 255, 0]));
    let bytes = storage.serialize().expect("a store can be written");
    let read = Storage::read_saves_from_serialized(&bytes).expect("its bytes can be read");
    assert_eq!(listing(&read.save_files()), listing(&storage.save_files()));
    for file in storage.save_files() {
        let versions = storage.save_versions(file.path());
        assert_eq!(times(&read.save_versions(file.path())), times(&versions));
        for version in versions {
            assert_eq!(
                read.data_of(file.path(), *version.time()),
                storage.data_of(file.path(), *version.time())
            );
        }
    }
    assert_eq!(read.serialize(), Ok(bytes));
}

#[test]
fn bytes_that_are_no_snapshot_are_refused() {
    assert_eq!(Storage::read_saves_from_serialized(&[]).err(), Some(SnapshotError::Codec));
    assert_eq!(Storage::read_saves_from_serialized(&[1, 1]).err(), Some(SnapshotError::Codec));
    assert_eq!(
        Storage::read_saves_from_serialized(&[1, 1, 0xff, 0]).err(),
        Some(SnapshotError::Codec)
    );
}

#[test]
fn a_snapshot_that_is_not_canonical_is_refused() {
    let ascending = vec![("a".to_string(), vec![(1u128, vec![1u8]), (2u128, vec![2u8])])];
    let repeated_time = vec![("a".to_string(), vec![(2u128, vec![1u8]), (2u128, vec![2u8])])];
    let no_version = vec![("a".to_string(), Vec::<(u128, Vec<u8>)>::new())];
    let repeated_path = vec![
        ("a".to_string(), vec![(1u128, vec![1u8])]),
        ("b".to_string(), vec![(1u128, vec![1u8])]),
        ("a".to_string(), vec![(2u128, vec![2u8])]),
    ];
    for files in [ascending, repeated_time, no_version, repeated_path] {
        let bytes = postcard::to_stdvec(&files).expect("plain values can be written");
        assert_eq!(
            Storage::read_saves_from_serialized(&bytes).err(),
            Some(SnapshotError::NotCanonical)
        );
    }
}

#[test]
fn a_canonical_snapshot_written_elsewhere_is_read() {
    let files = vec![
        ("b".to_string(), vec![(9u128, vec![1u8]), (2u128, vec![])]),
        ("a".to_string(), vec![(4u128, vec![3u8, 4])]),
    ];
    let bytes = postcard::to_stdvec(&files).expect("plain values can be written");
    let storage = Storage::read_saves_from_serialized(&bytes).expect("a canonical snapshot");
    assert_eq!(listing(&storage.save_files()), vec![("b".to_string(), 9), ("a".to_string(), 4)]);
    assert_eq!(times(&storage.save_versions("b")), vec![9, 2]);
    assert_eq!(storage.data_of("a", 4), Some(&[3u8, 4][..]));
}

#[test]
fn directory_scan_stores_every_capture_in_turn() {
    let storage = Storage::read_saves_from_files(vec![
        capture("a", 1, b"old"),
        capture("b", 2, b"b"),
        capture("a", 1, b"new"),
    ]);
    assert_eq!(listing(&storage.save_files()), vec![("b".to_string(), 2), ("a".to_string(), 1)]);
    assert_eq!(storage.data_of("a", 1), Some(&b"new"[..]));
    assert!(Storage::read_saves_from_files(Vec::new()).save_files().is_empty());
}

#[test]
fn start_prefers_the_snapshot() {
    let mut persisted = Storage::empty();
    persisted.apply_update(capture("a", 1, b"persisted"));
    let bytes = persisted.serialize().expect("a store can be written");
    let storage = Storage::read_saves(Some(bytes), Some(vec![capture("b", 2, b"scanned")]));
    assert_eq!(listing(&storage.save_files()), vec![("a".to_string(), 1)]);
    assert_eq!(storage.data_of("a", 1), Some(&b"persisted"[..]));
}

#[test]
fn start_falls_back_to_the_directory_scan() {
    let scanned = vec![capture("b", 2, b"scanned")];
    let missing = Storage::read_saves(None, Some(scanned.clone()));
    assert_eq!(listing(&missing.save_files()), vec![("b".to_string(), 2)]);
    let corrupt = Storage::read_saves(Some(vec![0xff, 0xff]), Some(scanned.clone()));
    assert_eq!(listing(&corrupt.save_files()), vec![("b".to_string(), 2)]);
    let unordered = postcard::to_stdvec(&vec![(
        "a".to_string(),
        vec![(1u128, vec![1u8]), (2u128, vec![2u8])],
    )])
    .expect("plain values can be written");
    let refused = Storage::read_saves(Some(unordered), Some(scanned));
    assert_eq!(listing(&refused.save_files()), vec![("b".to_string(), 2)]);
}

#[test]
fn start_without_snapshot_and_scan_is_empty() {
    assert!(Storage::read_saves(None, None).save_files().is_empty());
    assert!(Storage::read_saves(Some(vec![0xff]), None).save_files().is_empty());
}

#[test]
fn save_file_holds_path_and_time() {
    let file = SaveFile::new("save1.ck3".to_string(), 42);
    assert_eq!(file.path(), "save1.ck3");
    assert_eq!(*file.time(), 42);
}

#[test]
fn save_file_stands_before_older_and_later_named_files() {
    let recent = SaveFile::new("b".to_string(), 9);
    let old = SaveFile::new("a".to_string(), 3);
    let tied = SaveFile::new("c".to_string(), 9);
    assert!(recent.stands_before(&old));
    assert!(!old.stands_before(&recent));
    assert!(recent.stands_before(&tied));
    assert!(!tied.stands_before(&recent));
    assert!(!recent.stands_before(&recent));
}

#[test]
fn save_version_holds_its_time() {
    let version = SaveVersion::new(1_700_000_000_000_000_000);
    assert_eq!(*version.time(), 1_700_000_000_000_000_000);
    assert_eq!(version, SaveVersion::new(1_700_000_000_000_000_000));
    assert_ne!(version, SaveVersion::new(0));
}

#[test]
fn capture_time_counts_nanoseconds_since_the_epoch() {
    assert_eq!(NANOS_PER_SECOND, 1_000_000_000);
    assert_eq!(time_from_parts(0, 0), 0);
    assert_eq!(time_from_parts(1, 5), 1_000_000_005);
    assert_eq!(time_from_parts(1_700_000_000, 123_456_789), 1_700_000_000_123_456_789);
    assert_eq!(
        time_from_parts(u64::MAX, 999_999_999),
        18_446_744_073_709_551_615_999_999_999
    );
}

#[test]
fn capture_time_falls_apart_into_seconds_and_nanoseconds() {
    assert_eq!(time_to_parts(0), (0, 0));
    assert_eq!(time_to_parts(999_999_999), (0, 999_999_999));
    assert_eq!(time_to_parts(1_000_000_000), (1, 0));
    assert_eq!(time_to_parts(1_700_000_000_123_456_789), (1_700_000_000, 123_456_789));
    assert_eq!(
        time_to_parts(time_from_parts(u64::MAX, 999_999_999)),
        (u64::MAX, 999_999_999)
    );
}

#[test]
fn capture_time_too_late_for_its_seconds_gives_the_largest_count() {
    assert_eq!(time_to_parts(u128::MAX), (u64::MAX, (u128::MAX % 1_000_000_000) as u32));
    assert_eq!(time_to_parts(18_446_744_073_709_551_616_000_000_007), (u64::MAX, 7));
}
