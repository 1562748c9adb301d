use file_dedup::{FileInfo, HashError};
use std::path::PathBuf;

#[test]
fn test_file_info_creation() {
    let path = PathBuf::from("/test/path/file.txt");
    let size = 1024;

    let file_info = FileInfo::new(path.clone(), size);

    assert_eq!(file_info.path, path);
    assert_eq!(file_info.size, size);
    assert!(file_info.hash.is_none());
}

#[test]
fn test_file_info_hash_calculation() {
    let content = b"Hello, World!";
    let mut file_info = FileInfo::new(PathBuf::from("test.txt"), 13);
    let hash1 = file_info.calculate_hash(Some(content)).unwrap().to_string();
    let hash2 = file_info.calculate_hash(Some(content)).unwrap().to_string();

    // Hash should be calculated once and cached
    assert_eq!(hash1, hash2);
    assert!(!hash1.is_empty());
    assert_eq!(hash1.len(), 16);
}

#[test]
fn test_identical_files_same_hash() {
    let content = b"This is test content for duplicate detection";

    let mut file1 = FileInfo::new(PathBuf::from("file1.txt"), content.len() as u64);
    let mut file2 = FileInfo::new(PathBuf::from("file2.txt"), content.len() as u64);

    let hash1 = file1.calculate_hash(Some(content)).unwrap();
    let hash2 = file2.calculate_hash(Some(content)).unwrap();

    assert_eq!(hash1, hash2);
}

#[test]
fn test_different_files_different_hash() {
    let mut file1 = FileInfo::new(PathBuf::from("file1.txt"), 9);
    let mut file2 = FileInfo::new(PathBuf::from("file2.txt"), 9);

    let hash1 = file1.calculate_hash(Some(b"Content A")).unwrap();
    let hash2 = file2.calculate_hash(Some(b"Content B")).unwrap();

    assert_ne!(hash1, hash2);
}

#[test]
fn test_error_handling_permission_denied() {
    // A file that cannot be read reports an error and stays without a digest.
    let mut file_info = FileInfo::new(PathBuf::from("no_read.txt"), 12);
    let result = file_info.calculate_hash(None);

    assert!(result.is_err());
    let HashError { path } = result.unwrap_err();
    assert_eq!(path, PathBuf::from("no_read.txt"));
    assert!(file_info.hash.is_none());

    // Once it can be read, the digest is computed after all.
    let digest = file_info.calculate_hash(Some(b"test content")).unwrap().to_string();
    assert_eq!(file_info.hash, Some(digest));
}

#[test]
fn cached_digest_is_never_recomputed() {
    let mut file_info = FileInfo::new(PathBuf::from("a.bin"), 3);
    let first = file_info.calculate_hash(Some(b"abc")).unwrap().to_string();
    // Different bytes, and even a failed read, leave the cached digest alone.
    let second = file_info.calculate_hash(Some(b"xyz")).unwrap().to_string();
    let third = file_info.calculate_hash(None).unwrap().to_string();
    assert_eq!(first, second);
    assert_eq!(first, third);
    assert_eq!(file_info.hash, Some(first));
    assert_eq!(file_info.size, 3);
    assert_eq!(file_info.path, PathBuf::from("a.bin"));
}
