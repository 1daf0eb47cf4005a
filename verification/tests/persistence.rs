use tessy::file_dependencies::persistence::{
    fingerprint_from_plain, fingerprint_to_plain, record_from_entries, record_to_plain,
};
use tessy::file_dependencies::{DependencyTracker, FileFingerprint, PathProbe};
use tessy::tasks::{BaseTask, ExecuteTask, Task};

fn task(name: &str) -> Task {
    Task::Execute(ExecuteTask::new(
        BaseTask::new(name.to_string(), Vec::new(), Vec::new()),
        "echo test".to_string(),
    ))
}

fn file(path: &str, fingerprint: FileFingerprint) -> PathProbe {
    PathProbe::File { path: path.to_string(), fingerprint: Some(fingerprint) }
}

fn sample() -> DependencyTracker {
    let mut tracker = DependencyTracker::default();
    tracker.add_tasks_dependencies(
        &vec![task("build"), task("empty"), task("test")],
        &vec![
            vec![
                file("/p/src/main.rs", FileFingerprint::ModifiedTime { before_epoch: false, secs: 1_700_000_000, nanos: 123_456_789 }),
                file("/p/Cargo.toml", FileFingerprint::Hash(0xDEAD_BEEF_0123_4567)),
            ],
            vec![],
            vec![file("/p/tests/äöü🚀.rs", FileFingerprint::ModifiedTime { before_epoch: false, secs: 0, nanos: 0 })],
        ],
    );
    tracker
}

#[test]
fn test_write_and_read_empty_tracker() {
    let original_tracker = DependencyTracker::default();
    let bytes = original_tracker.to_bytes().expect("stored form");
    let loaded_tracker = DependencyTracker::read_from_bytes(&bytes);
    assert_eq!(loaded_tracker.len(), 0);
    assert!(original_tracker.equals(&loaded_tracker));
    assert_eq!(original_tracker.to_records(), loaded_tracker.to_records());
}

#[test]
fn test_write_and_read_tracker_with_dependencies() {
    let original_tracker = sample();
    let bytes = original_tracker.to_bytes().expect("stored form");
    let loaded_tracker = DependencyTracker::read_from_bytes(&bytes);
    assert!(original_tracker.equals(&loaded_tracker));
    assert!(!original_tracker.equals(&DependencyTracker::default()));
    assert_eq!(original_tracker.to_records(), loaded_tracker.to_records());
    assert_eq!(loaded_tracker.len(), 3);
    assert!(loaded_tracker.record("build").is_some());
    assert_eq!(
        loaded_tracker.record("build").unwrap().get(&"/p/Cargo.toml".to_string()),
        Some(&FileFingerprint::Hash(0xDEAD_BEEF_0123_4567))
    );
    assert_eq!(loaded_tracker.record("empty").unwrap().len(), 0);
}

#[test]
fn test_read_from_corrupted_bytes() {
    let corrupted_data = b"this is not valid compressed bincode data";
    let tracker = DependencyTracker::read_from_bytes(corrupted_data);
    assert_eq!(tracker.len(), 0);
}

#[test]
fn test_read_from_invalid_compression() {
    let records = DependencyTracker::default().to_records();
    let encoded = bincode::encode_to_vec(&records, bincode::config::legacy()).unwrap();
    let result_tracker = DependencyTracker::read_from_bytes(&encoded);
    assert_eq!(result_tracker.len(), 0);
}

#[test]
fn stored_form_is_a_zstd_frame_of_the_fixed_width_encoding() {
    let tracker = sample();
    let bytes = tracker.to_bytes().expect("stored form");
    let data = zstd::decode_all(&bytes[..]).expect("a zstd frame");
    let expected = bincode::encode_to_vec(tracker.to_records(), bincode::config::legacy()).unwrap();
    assert_eq!(data, expected);
    // three records: the count is a little-endian u64
    assert_eq!(&data[..8], &[3u8, 0, 0, 0, 0, 0, 0, 0]);
    assert_ne!(bytes, data);
}

#[test]
fn compressed_garbage_reads_as_the_empty_tracker() {
    let frame = zstd::encode_all(&b"not an encoding of records"[..], 3).unwrap();
    assert_eq!(DependencyTracker::read_from_bytes(&frame).len(), 0);
    let empty: [u8; 0] = [];
    assert_eq!(DependencyTracker::read_from_bytes(&empty).len(), 0);
}

#[test]
fn a_length_beyond_the_limit_is_refused_without_allocating() {
    // a record count of u64::MAX followed by nothing
    let frame = zstd::encode_all(&[0xFFu8; 8][..], 3).unwrap();
    assert_eq!(DependencyTracker::read_from_bytes(&frame).len(), 0);
}

#[test]
fn an_unknown_fingerprint_tag_makes_the_whole_unreadable() {
    let records = vec![
        ("ok".to_string(), vec![("/a".to_string(), (0u32, 1u64, 2u32))]),
        ("bad".to_string(), vec![("/b".to_string(), (7u32, 1u64, 0u32))]),
    ];
    assert!(DependencyTracker::from_records(&records).is_none());
    let encoded = bincode::encode_to_vec(&records, bincode::config::legacy()).unwrap();
    let frame = zstd::encode_all(&encoded[..], 3).unwrap();
    assert_eq!(DependencyTracker::read_from_bytes(&frame).len(), 0);
}

#[test]
fn a_record_stored_twice_keeps_its_later_form() {
    let records = vec![
        ("t".to_string(), vec![("/a".to_string(), (0u32, 1u64, 2u32))]),
        ("t".to_string(), vec![("/a".to_string(), (1u32, 9u64, 0u32)), ("/a".to_string(), (1u32, 8u64, 0u32))]),
    ];
    let tracker = DependencyTracker::from_records(&records).expect("readable");
    assert_eq!(tracker.len(), 1);
    let record = tracker.record("t").unwrap();
    assert_eq!(record.len(), 1);
    assert_eq!(record.get(&"/a".to_string()), Some(&FileFingerprint::Hash(8)));
}

#[test]
fn fingerprints_have_a_tagged_stored_form() {
    let time = FileFingerprint::ModifiedTime { before_epoch: false, secs: 12, nanos: 34 };
    let hash = FileFingerprint::Hash(56);
    assert_eq!(fingerprint_to_plain(time), (0, 12, 34));
    assert_eq!(fingerprint_to_plain(hash), (1, 56, 0));
    assert_eq!(fingerprint_from_plain((0, 12, 34)), Some(time));
    assert_eq!(fingerprint_from_plain((1, 56, 0)), Some(hash));
    assert_eq!(fingerprint_from_plain((1, 56, 1)), None);
    assert_eq!(fingerprint_from_plain((3, 0, 0)), None);
    let early = FileFingerprint::ModifiedTime { before_epoch: true, secs: 12, nanos: 34 };
    assert_eq!(fingerprint_to_plain(early), (2, 12, 34));
    assert_eq!(fingerprint_from_plain((2, 12, 34)), Some(early));
    assert_ne!(early, time);
}

#[test]
fn records_have_a_stored_form_that_reads_back() {
    let tracker = sample();
    let record = tracker.record("build").unwrap();
    let entries = record_to_plain(record);
    assert_eq!(
        entries,
        vec![
            ("/p/src/main.rs".to_string(), (0u32, 1_700_000_000u64, 123_456_789u32)),
            ("/p/Cargo.toml".to_string(), (1u32, 0xDEAD_BEEF_0123_4567u64, 0u32)),
        ]
    );
    let back = record_from_entries(&entries).expect("readable");
    assert_eq!(record_to_plain(&back), entries);
    assert!(record_from_entries(&vec![("/x".to_string(), (3u32, 0u64, 0u32))]).is_none());
}

#[test]
fn trackers_are_equal_whatever_the_order_of_their_records() {
    let one = DependencyTracker::from_records(&vec![
        ("a".to_string(), vec![("/x".to_string(), (0u32, 1u64, 2u32)), ("/y".to_string(), (1u32, 3u64, 0u32))]),
        ("b".to_string(), vec![]),
    ])
    .unwrap();
    let other = DependencyTracker::from_records(&vec![
        ("b".to_string(), vec![]),
        ("a".to_string(), vec![("/y".to_string(), (1u32, 3u64, 0u32)), ("/x".to_string(), (0u32, 1u64, 2u32))]),
    ])
    .unwrap();
    let changed = DependencyTracker::from_records(&vec![
        ("b".to_string(), vec![]),
        ("a".to_string(), vec![("/y".to_string(), (1u32, 4u64, 0u32)), ("/x".to_string(), (0u32, 1u64, 2u32))]),
    ])
    .unwrap();
    let renamed = DependencyTracker::from_records(&vec![
        ("c".to_string(), vec![]),
        ("a".to_string(), vec![("/y".to_string(), (1u32, 3u64, 0u32)), ("/x".to_string(), (0u32, 1u64, 2u32))]),
    ])
    .unwrap();
    assert!(one.equals(&other) && other.equals(&one));
    assert!(!one.equals(&changed));
    assert!(!one.equals(&renamed));
}
