use file_dedup::{hash_bytes, to_hex, ContentHasher, FileInfo, CHUNK_SIZE, DIGEST_WIDTH};
use std::path::PathBuf;
use xxhash_rust::xxh3::xxh3_64;

fn sample(len: usize) -> Vec<u8> {
    (0..len).map(|i| (i * 31 % 251) as u8).collect()
}

#[test]
fn hex_is_sixteen_lowercase_digits() {
    assert_eq!(to_hex(0), "0000000000000000");
    assert_eq!(to_hex(1), "0000000000000001");
    assert_eq!(to_hex(0xdead_beef), "00000000deadbeef");
    assert_eq!(to_hex(0x0123_4567_89ab_cdef), "0123456789abcdef");
    assert_eq!(to_hex(0xfedc_ba98_7654_3210), "fedcba9876543210");
    assert_eq!(to_hex(u64::MAX), "ffffffffffffffff");
    for value in [0u64, 9, 10, 15, 16, 255, 4096, u64::MAX / 3, u64::MAX] {
        assert_eq!(to_hex(value), format!("{:016x}", value));
        assert_eq!(to_hex(value).len(), DIGEST_WIDTH);
    }
}

#[test]
fn digest_of_empty_input_is_the_known_xxh3_value() {
    assert_eq!(hash_bytes(b""), "2d06800538d394c2");
    assert_eq!(ContentHasher::new().finish(), "2d06800538d394c2");
}

#[test]
fn digest_is_the_xxh3_value_of_the_whole_content() {
    for len in [0, 1, 13, 240, 241, 256, 257, CHUNK_SIZE - 1, CHUNK_SIZE, CHUNK_SIZE + 1, 3 * CHUNK_SIZE, 50_000] {
        let content = sample(len);
        assert_eq!(hash_bytes(&content), format!("{:016x}", xxh3_64(&content)), "length {}", len);
    }
}

#[test]
fn digest_does_not_depend_on_how_the_content_is_chunked() {
    let content = sample(20_000);
    let whole = hash_bytes(&content);
    for chunk in [1usize, 7, 64, 1024, 8192, 20_000] {
        let mut hasher = ContentHasher::new();
        for piece in content.chunks(chunk) {
            hasher.update(piece);
        }
        assert_eq!(hasher.finish(), whole, "chunks of {}", chunk);
    }
    // Empty chunks change nothing.
    let mut hasher = ContentHasher::new();
    hasher.update(b"");
    hasher.update(&content);
    hasher.update(b"");
    assert_eq!(hasher.finish(), whole);
}

#[test]
fn hasher_can_be_asked_more_than_once() {
    let mut hasher = ContentHasher::new();
    hasher.update(b"Hello, ");
    let partial = hasher.finish();
    assert_eq!(partial, hash_bytes(b"Hello, "));
    assert_eq!(hasher.finish(), partial);
    hasher.update(b"World!");
    assert_eq!(hasher.finish(), hash_bytes(b"Hello, World!"));
}

#[test]
fn digest_takes_raw_bytes_without_normalization() {
    assert_ne!(hash_bytes(b"line\n"), hash_bytes(b"line\r\n"));
    assert_ne!(hash_bytes(b"abc"), hash_bytes(b"ABC"));
    assert_ne!(hash_bytes(b"abc"), hash_bytes(b"abc "));
    assert_eq!(hash_bytes(b"abc"), hash_bytes(&[0x61, 0x62, 0x63]));
}

#[test]
fn streamed_digest_is_cached_like_a_computed_one() {
    let content = sample(10_000);
    let mut hasher = ContentHasher::new();
    for piece in content.chunks(4096) {
        hasher.update(piece);
    }
    let mut streamed = FileInfo::new(PathBuf::from("s"), content.len() as u64);
    let mut direct = FileInfo::new(PathBuf::from("d"), content.len() as u64);
    let first = streamed.calculate_hash_streamed(Some(&hasher)).unwrap().to_string();
    assert_eq!(first, direct.calculate_hash(Some(&content)).unwrap());

    // The cached digest wins over a later stream and over a failed read.
    let other = ContentHasher::new();
    assert_eq!(streamed.calculate_hash_streamed(Some(&other)).unwrap(), first);
    assert_eq!(streamed.calculate_hash_streamed(None).unwrap(), first);

    let mut unread = FileInfo::new(PathBuf::from("u"), 1);
    let error = unread.calculate_hash_streamed(None).unwrap_err();
    assert_eq!(error.path, PathBuf::from("u"));
    assert!(unread.hash.is_none());
}
