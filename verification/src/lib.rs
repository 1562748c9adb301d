//! Duplicate-file detection core.
//!
//! Files are bucketed by exact byte size, buckets with at least two members
//! are re-partitioned by content digest, and each partition with at least
//! two members becomes a duplicate group. A resolution engine turns a group
//! into a deletion decision that always keeps at least one member.
//!
//! The crate performs no I/O: callers enumerate files, read their bytes and
//! remove them, and hand the observations to the functions here.

pub mod buckets;
pub mod capped;
pub mod file_info;
pub mod groups;
pub mod hasher;
pub mod order;
pub mod report;
pub mod resolution;

pub use buckets::{
    calculate_potential_savings, collect_files, collect_files_for_size_calc, record_entry,
    Discovery, Entry, EntryKind,
};
pub use file_info::{FileInfo, HashError};
pub use groups::{find_duplicate_groups, group_bucket, promoted_sizes, DuplicateGroup};
pub use hasher::{hash_bytes, to_hex, ContentHasher, CHUNK_SIZE, DIGEST_WIDTH};
pub use report::{label, report_savings, summarize, Label, Summary};
pub use resolution::{
    check_before_delete, Choice, DeleteCheck, GroupResolution, NothingKept, Phase, Totals,
};
