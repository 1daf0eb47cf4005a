use std::hash::Hasher;

use tessy::file_dependencies::{FileFingerprint, FileMetadata, Fingerprint, FingerprintStep};

fn metro(bytes: &[u8]) -> u64 {
    let mut hasher = fasthash::MetroHasher::default();
    hasher.write(bytes);
    hasher.finish()
}

#[test]
fn test_fingerprint_error_display() {
    let nonexistent_path = "/this/path/does/not/exist.txt".to_string();
    let directory_path = "/tmp".to_string();

    let path_error =
        Fingerprint::PathError { path: nonexistent_path.clone(), source: "file not found".to_string() };

    let directory_error = Fingerprint::DirectoryError { path: directory_path.clone() };

    let path_error_msg = path_error.message();
    let directory_error_msg = directory_error.message();

    assert!(path_error_msg.contains("Failed to create dependency from path"));
    assert!(path_error_msg.contains("/this/path/does/not/exist.txt"));

    assert!(directory_error_msg.contains("contains a directory"));
    assert!(directory_error_msg.contains("/tmp"));
    assert_eq!(path_error_msg, "Failed to create dependency from path: /this/path/does/not/exist.txt");
    assert_eq!(directory_error_msg, "The supplied path /tmp contains a directory");
}

#[test]
fn test_file_fingerprint_from_regular_file() {
    let path = "/tmp/file".to_string();
    let metadata = FileMetadata { is_dir: false, modified: Some((false, 1_700_000_000, 42)) };
    match FileFingerprint::from_metadata(&path, Ok(metadata)) {
        FingerprintStep::Done(Ok(fingerprint)) => {
            assert_eq!(fingerprint, FileFingerprint::ModifiedTime { before_epoch: false, secs: 1_700_000_000, nanos: 42 })
        }
        other => panic!("unexpected {:?}", other),
    }
}

#[test]
fn test_file_fingerprint_from_directory() {
    let path = "/tmp/dir".to_string();
    let metadata = FileMetadata { is_dir: true, modified: Some((false, 1, 1)) };
    match FileFingerprint::from_metadata(&path, Ok(metadata)) {
        FingerprintStep::Done(Err(Fingerprint::DirectoryError { path: reported })) => {
            assert_eq!(reported, path)
        }
        _ => panic!("Expected DirectoryError"),
    }
}

#[test]
fn test_file_fingerprint_from_nonexistent_file() {
    let path = "/this/path/does/not/exist.txt".to_string();
    match FileFingerprint::from_metadata(&path, Err("not found".to_string())) {
        FingerprintStep::Done(Err(Fingerprint::PathError { path: reported, source })) => {
            assert_eq!(reported, path);
            assert_eq!(source, "not found");
        }
        _ => panic!("Expected PathError"),
    }
}

#[test]
fn test_file_fingerprint_modified_time_changes() {
    let path = "/tmp/file".to_string();
    let first = FileFingerprint::from_metadata(
        &path,
        Ok(FileMetadata { is_dir: false, modified: Some((false, 10, 0)) }),
    );
    let second = FileFingerprint::from_metadata(
        &path,
        Ok(FileMetadata { is_dir: false, modified: Some((false, 10, 10_000_000)) }),
    );
    match (first, second) {
        (FingerprintStep::Done(Ok(a)), FingerprintStep::Done(Ok(b))) => assert_ne!(a, b),
        other => panic!("unexpected {:?}", other),
    }
}

#[test]
fn a_file_without_modification_time_is_hashed() {
    let path = "/tmp/file".to_string();
    let metadata = FileMetadata { is_dir: false, modified: None };
    assert!(matches!(
        FileFingerprint::from_metadata(&path, Ok(metadata)),
        FingerprintStep::ReadContents
    ));
    let fingerprint = FileFingerprint::from_contents(&path, Ok(b"hello".to_vec())).unwrap();
    assert_eq!(fingerprint, FileFingerprint::Hash(metro(b"hello")));
    assert_ne!(fingerprint, FileFingerprint::Hash(0));
}

#[test]
fn test_file_fingerprint_same_content_same_fingerprint() {
    let content = b"identical content\n".to_vec();
    let one = FileFingerprint::from_contents(&"/a".to_string(), Ok(content.clone())).unwrap();
    let two = FileFingerprint::from_contents(&"/b".to_string(), Ok(content)).unwrap();
    assert_eq!(one, two, "Files with identical content should have identical hashes");
    let other = FileFingerprint::from_contents(&"/a".to_string(), Ok(b"other content\n".to_vec())).unwrap();
    assert_ne!(one, other);
}

fn check_content(content: &str) {
    let fingerprint = FileFingerprint::from_contents(&"/f".to_string(), Ok(content.as_bytes().to_vec()));
    assert!(fingerprint.is_ok(), "Failed to create fingerprint for content: {:?}", content);
    assert_eq!(fingerprint.unwrap(), FileFingerprint::Hash(metro(content.as_bytes())));
}

#[test]
fn test_file_fingerprint_with_various_content() {
    check_content("hello world");
    check_content("");
    check_content("special chars: äöü🚀");
    check_content("multiline\ncontent\nwith\nnewlines");
}

#[test]
fn test_file_fingerprint_large_file() {
    let large_content = "x".repeat(1024 * 1024);
    let fingerprint = FileFingerprint::from_contents(&"/f".to_string(), Ok(large_content.into_bytes()));
    assert!(fingerprint.is_ok(), "Failed to create fingerprint for large file");
}

#[test]
fn test_file_fingerprint_clone_and_equality() {
    let fingerprint = FileFingerprint::ModifiedTime { before_epoch: false, secs: 3, nanos: 4 };
    let cloned_fingerprint = fingerprint.clone();
    assert_eq!(fingerprint, cloned_fingerprint);
    assert_eq!(fingerprint.clone(), fingerprint);
}

#[test]
fn test_file_fingerprint_hash_consistency() {
    let content = b"test content for hash\n".to_vec();
    let first = FileFingerprint::from_contents(&"/f".to_string(), Ok(content.clone())).unwrap();
    let second = FileFingerprint::from_contents(&"/f".to_string(), Ok(content)).unwrap();
    assert_eq!(first, second);
}

#[test]
fn a_modification_time_never_equals_a_hash() {
    assert_ne!(FileFingerprint::ModifiedTime { before_epoch: false, secs: 7, nanos: 0 }, FileFingerprint::Hash(7));
    assert_ne!(FileFingerprint::ModifiedTime { before_epoch: false, secs: 0, nanos: 7 }, FileFingerprint::Hash(7));
}

#[test]
fn a_failed_read_is_a_path_error() {
    match FileFingerprint::from_contents(&"/f".to_string(), Err("denied".to_string())) {
        Err(Fingerprint::PathError { path, source }) => {
            assert_eq!(path, "/f");
            assert_eq!(source, "denied");
        }
        other => panic!("unexpected {:?}", other),
    }
}

#[test]
fn a_modification_time_before_the_epoch_is_a_fingerprint_of_its_own() {
    let path = "/tmp/old".to_string();
    let before = FileFingerprint::from_metadata(
        &path,
        Ok(FileMetadata { is_dir: false, modified: Some((true, 10, 5)) }),
    );
    let after = FileFingerprint::from_metadata(
        &path,
        Ok(FileMetadata { is_dir: false, modified: Some((false, 10, 5)) }),
    );
    match (before, after) {
        (FingerprintStep::Done(Ok(a)), FingerprintStep::Done(Ok(b))) => {
            assert_eq!(a, FileFingerprint::ModifiedTime { before_epoch: true, secs: 10, nanos: 5 });
            assert_ne!(a, b);
        }
        other => panic!("unexpected {:?}", other),
    }
}
