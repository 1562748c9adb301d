use file_dedup::{
    find_duplicate_groups, group_bucket, hash_bytes, promoted_sizes, DuplicateGroup, FileInfo,
};
use std::collections::HashMap;
use std::path::PathBuf;

/// A record of a file with this content, digest already computed.
fn hashed(path: &str, content: &[u8]) -> FileInfo {
    let mut file = FileInfo::new(PathBuf::from(path), content.len() as u64);
    file.calculate_hash(Some(content)).unwrap();
    file
}

/// A record of a file of this size that could not be read.
fn unread(path: &str, size: u64) -> FileInfo {
    FileInfo::new(PathBuf::from(path), size)
}

fn buckets_of(files: Vec<FileInfo>) -> HashMap<u64, Vec<FileInfo>> {
    let mut files_by_size: HashMap<u64, Vec<FileInfo>> = HashMap::new();
    for file in files {
        files_by_size.entry(file.size).or_default().push(file);
    }
    files_by_size
}

fn paths(group: &DuplicateGroup) -> Vec<&str> {
    group.files.iter().map(|f| f.path.to_str().unwrap()).collect()
}

#[test]
fn bucket_is_partitioned_by_digest_in_discovery_order() {
    let bucket = vec![
        hashed("x/first_b", b"bbbb"),
        hashed("x/first_a", b"aaaa"),
        hashed("y/lonely", b"cccc"),
        hashed("y/second_a", b"aaaa"),
        hashed("z/second_b", b"bbbb"),
        hashed("z/third_a", b"aaaa"),
    ];
    let groups = group_bucket(4, bucket);
    assert_eq!(groups.len(), 2);
    // Groups come in the order in which their digest first occurs.
    assert_eq!(groups[0].hash, hash_bytes(b"bbbb"));
    assert_eq!(paths(&groups[0]), vec!["x/first_b", "z/second_b"]);
    assert_eq!(groups[1].hash, hash_bytes(b"aaaa"));
    assert_eq!(paths(&groups[1]), vec!["x/first_a", "y/second_a", "z/third_a"]);
    for group in &groups {
        assert_eq!(group.size, 4);
        assert!(group.files.len() >= 2);
        for file in &group.files {
            assert_eq!(file.size, group.size);
            assert_eq!(file.hash.as_ref(), Some(&group.hash));
        }
    }
}

#[test]
fn same_size_but_different_content_is_no_group() {
    let groups = group_bucket(4, vec![hashed("a", b"AAAA"), hashed("b", b"BBBB")]);
    assert!(groups.is_empty());
    let groups = find_duplicate_groups(buckets_of(vec![
        hashed("a", b"AAAA"),
        hashed("b", b"BBBB"),
        hashed("c", b"CCCC"),
    ]));
    assert!(groups.is_empty());
}

#[test]
fn file_without_digest_is_left_out_of_grouping() {
    // The unreadable file is dropped from its bucket, the others still match.
    let groups = group_bucket(
        3,
        vec![hashed("a", b"abc"), unread("gone", 3), hashed("b", b"abc"), unread("denied", 3)],
    );
    assert_eq!(groups.len(), 1);
    assert_eq!(paths(&groups[0]), vec!["a", "b"]);

    // With only one readable copy left there is no group.
    assert!(group_bucket(3, vec![hashed("a", b"abc"), unread("gone", 3)]).is_empty());
    // Files that were never hashed are not duplicates of each other.
    assert!(group_bucket(3, vec![unread("p", 3), unread("q", 3)]).is_empty());
    assert!(group_bucket(3, vec![]).is_empty());
}

#[test]
fn identical_content_lands_in_one_group_whatever_depth_or_name() {
    let content = b"the very same bytes";
    let groups = find_duplicate_groups(buckets_of(vec![
        hashed("top.txt", content),
        hashed("a/b/c/d/e/f/deep.bin", content),
        hashed("other/name.with.dots", content),
        hashed("unrelated", b"something else entirely"),
    ]));
    assert_eq!(groups.len(), 1);
    assert_eq!(groups[0].size, content.len() as u64);
    assert_eq!(groups[0].hash, hash_bytes(content));
    assert_eq!(paths(&groups[0]), vec!["top.txt", "a/b/c/d/e/f/deep.bin", "other/name.with.dots"]);
}

#[test]
fn groups_come_by_ascending_size() {
    let groups = find_duplicate_groups(buckets_of(vec![
        hashed("l1", &[7u8; 300]),
        hashed("s1", b"zz"),
        hashed("m1", &[1u8; 40]),
        hashed("m2", &[1u8; 40]),
        hashed("l2", &[7u8; 300]),
        hashed("s2", b"zz"),
        hashed("m3", &[2u8; 40]),
        hashed("m4", &[2u8; 40]),
        hashed("single", &[9u8; 1000]),
    ]));
    let shape: Vec<_> = groups.iter().map(|g| (g.size, paths(g))).collect();
    assert_eq!(
        shape,
        vec![
            (2, vec!["s1", "s2"]),
            (40, vec!["m1", "m2"]),
            (40, vec!["m3", "m4"]),
            (300, vec!["l1", "l2"]),
        ]
    );
}

#[test]
fn scanning_twice_gives_the_same_groups() {
    let scan = || {
        find_duplicate_groups(buckets_of(vec![
            hashed("d/one", b"payload-1"),
            hashed("d/two", b"payload-2"),
            hashed("e/one", b"payload-1"),
            hashed("e/big", &[5u8; 9000]),
            hashed("f/big", &[5u8; 9000]),
            hashed("f/two", b"payload-2"),
        ]))
    };
    let first = scan();
    let second = scan();
    assert_eq!(first.len(), 3);
    assert_eq!(first.len(), second.len());
    for (a, b) in first.iter().zip(second.iter()) {
        assert_eq!(a.size, b.size);
        assert_eq!(a.hash, b.hash);
        assert_eq!(paths(a), paths(b));
    }
}

#[test]
fn no_file_is_a_member_of_two_groups() {
    let groups = find_duplicate_groups(buckets_of(vec![
        hashed("a1", b"aa"),
        hashed("b1", b"bb"),
        hashed("a2", b"aa"),
        hashed("b2", b"bb"),
        hashed("c1", b"ccc"),
        hashed("c2", b"ccc"),
    ]));
    let mut seen: Vec<&str> = Vec::new();
    let mut keys: Vec<(u64, String)> = Vec::new();
    for group in &groups {
        assert!(!keys.contains(&(group.size, group.hash.clone())));
        keys.push((group.size, group.hash.clone()));
        for path in paths(group) {
            assert!(!seen.contains(&path));
            seen.push(path);
        }
    }
    assert_eq!(seen.len(), 6);
}

#[test]
fn only_buckets_with_two_members_are_promoted() {
    let files_by_size = buckets_of(vec![
        unread("a", 500),
        unread("b", 20),
        unread("c", 500),
        unread("d", 7),
        unread("e", 20),
        unread("f", 20),
        unread("g", 1),
    ]);
    assert_eq!(promoted_sizes(&files_by_size), vec![20, 500]);
    assert!(promoted_sizes(&HashMap::new()).is_empty());
    assert!(promoted_sizes(&buckets_of(vec![unread("a", 1), unread("b", 2)])).is_empty());
}

#[test]
fn empty_scan_has_no_groups() {
    assert!(find_duplicate_groups(HashMap::new()).is_empty());
}
