//! Size buckets: discovered files grouped by exact byte size.

use crate::file_info::{records, FileInfo, FileRecord};
use crate::capped::{capped_bytes, capped_count};
use std::collections::{HashMap, HashSet};
use std::path::PathBuf;
use vstd::prelude::*;

verus! {

/// What kind of thing the file enumerator came across. A symbolic link is
/// reported as such, whatever it points to.
#[derive(Debug, Clone, Copy, PartialEq, Eq, Structural)]
pub enum EntryKind {
    File,
    Directory,
    Symlink,
    Other,
}

/// One thing the file enumerator came across: where, what, and how many
/// bytes it holds, or `None` where that could not be found out.
#[derive(Debug, Clone)]
pub struct Entry {
    pub path: PathBuf,
    pub kind: EntryKind,
    pub size: Option<u64>,
}

/// What became of an entry.
#[derive(Debug, Clone, Copy, PartialEq, Eq, Structural)]
pub enum Discovery {
    /// A regular file with content: recorded in its size bucket.
    Recorded,
    /// Not a regular file: passed over.
    NotAFile,
    /// A regular file whose size could not be found out: passed over.
    Unreadable,
    /// A regular file without content: passed over.
    Empty,
}

/// What becomes of `entry`.
pub open spec fn discovery(entry: Entry) -> Discovery {
    if !(entry.kind is File) {
        Discovery::NotAFile
    } else {
        match entry.size {
            None => Discovery::Unreadable,
            Some(size) => if size == 0 {
                Discovery::Empty
            } else {
                Discovery::Recorded
            },
        }
    }
}

/// The record made of an entry that is recorded.
pub open spec fn recorded_file(entry: Entry) -> FileInfo {
    FileInfo { path: entry.path, size: entry.size.unwrap(), hash: None }
}

/// The records made of `entries`, in order.
pub open spec fn recorded_files(entries: Seq<Entry>) -> Seq<FileInfo>
    decreases entries.len(),
{
    if entries.len() == 0 {
        Seq::empty()
    } else if discovery(entries.last()) is Recorded {
        recorded_files(entries.drop_last()).push(recorded_file(entries.last()))
    } else {
        recorded_files(entries.drop_last())
    }
}

/// The records made of those `entries` that hold `size` bytes, in order.
pub open spec fn recorded_of_size(entries: Seq<Entry>, size: u64) -> Seq<FileInfo>
    decreases entries.len(),
{
    if entries.len() == 0 {
        Seq::empty()
    } else if discovery(entries.last()) is Recorded && entries.last().size == Some(size) {
        recorded_of_size(entries.drop_last(), size).push(recorded_file(entries.last()))
    } else {
        recorded_of_size(entries.drop_last(), size)
    }
}

/// The paths of those `entries` that are regular files whose size could
/// not be found out, in order.
pub open spec fn unreadable_paths(entries: Seq<Entry>) -> Seq<PathBuf>
    decreases entries.len(),
{
    if entries.len() == 0 {
        Seq::empty()
    } else if discovery(entries.last()) is Unreadable {
        unreadable_paths(entries.drop_last()).push(entries.last().path)
    } else {
        unreadable_paths(entries.drop_last())
    }
}

/// The bucket of `size`: empty where the map has none.
pub open spec fn bucket_of(buckets: Map<u64, Vec<FileInfo>>, size: u64) -> Seq<FileInfo> {
    if buckets.contains_key(size) {
        buckets[size]@
    } else {
        Seq::empty()
    }
}

/// The size buckets as mathematics: for every size, the views of the files
/// filed under it, in discovery order.
pub open spec fn size_buckets(files_by_size: Map<u64, Vec<FileInfo>>) -> Map<u64, Seq<FileRecord>> {
    Map::new(
        |size: u64| files_by_size.contains_key(size),
        |size: u64| records(files_by_size[size]@),
    )
}

/// Every bucket is filed under the size of its members, none is empty and
/// none is for empty files.
pub open spec fn buckets_wf(buckets: Map<u64, Vec<FileInfo>>) -> bool {
    forall|size: u64| #[trigger]
        buckets.contains_key(size) ==> size > 0 && buckets[size]@.len() > 0 && forall|i: int|
            0 <= i < buckets[size]@.len() ==> (#[trigger] buckets[size]@[i]).size == size
}

/// Takes note of one entry: a regular file with content is appended to the
/// bucket of its size and counted; anything else is passed over. The count
/// stops at the largest value it can hold.
pub fn record_entry(
    entry: &Entry,
    files_by_size: &mut HashMap<u64, Vec<FileInfo>>,
    total_files: &mut usize,
) -> (outcome: Discovery)
    ensures
        outcome == discovery(*entry),
        !(outcome is Recorded) ==> final(files_by_size)@ == old(files_by_size)@,
        !(outcome is Recorded) ==> *final(total_files) == *old(total_files),
        outcome is Recorded ==> {
            let size = entry.size.unwrap();
            &&& final(files_by_size)@.dom() == old(files_by_size)@.dom().insert(size)
            &&& final(files_by_size)@.remove(size) == old(files_by_size)@.remove(size)
            &&& bucket_of(final(files_by_size)@, size) == bucket_of(old(files_by_size)@, size).push(
                recorded_file(*entry),
            )
            &&& *final(total_files) == capped_count(*old(total_files) + 1)
        },
{
    broadcast use vstd::std_specs::hash::group_hash_axioms;

    match entry.kind {
        EntryKind::File => {},
        _ => {
            return Discovery::NotAFile;
        },
    }
    let size = match entry.size {
        Some(size) => size,
        None => {
            return Discovery::Unreadable;
        },
    };
    if size == 0 {
        return Discovery::Empty;
    }
    let mut bucket = match files_by_size.remove(&size) {
        Some(bucket) => bucket,
        None => Vec::new(),
    };
    bucket.push(FileInfo::new(entry.path.clone(), size));
    files_by_size.insert(size, bucket);
    *total_files = total_files.saturating_add(1);
    assert(files_by_size@.dom() =~= old(files_by_size)@.dom().insert(size));
    assert(files_by_size@.remove(size) =~= old(files_by_size)@.remove(size));
    Discovery::Recorded
}


/// The size of each file, in order.
pub open spec fn sizes_of(files: Seq<FileInfo>) -> Seq<u64> {
    Seq::new(files.len(), |i: int| files[i].size)
}

/// How many of `sizes` equal `size`: the members of that size's bucket.
pub open spec fn bucket_members(sizes: Seq<u64>, size: u64) -> nat
    decreases sizes.len(),
{
    if sizes.len() == 0 {
        0
    } else {
        bucket_members(sizes.drop_last(), size) + if sizes.last() == size {
            1nat
        } else {
            0nat
        }
    }
}

/// What removing all but one member of the bucket of `size` would free.
pub open spec fn bucket_savings(sizes: Seq<u64>, size: u64) -> nat {
    if bucket_members(sizes, size) > 0 {
        (size * (bucket_members(sizes, size) - 1)) as nat
    } else {
        0
    }
}

/// The sum of [`bucket_savings`] over the buckets named by `buckets`.
pub open spec fn savings_over(sizes: Seq<u64>, buckets: Seq<u64>) -> nat
    decreases buckets.len(),
{
    if buckets.len() == 0 {
        0
    } else {
        savings_over(sizes, buckets.drop_last()) + bucket_savings(sizes, buckets.last())
    }
}

/// The distinct values of `sizes`, each where it first occurs.
pub open spec fn distinct_sizes(sizes: Seq<u64>) -> Seq<u64>
    decreases sizes.len(),
{
    if sizes.len() == 0 {
        Seq::empty()
    } else if sizes.drop_last().contains(sizes.last()) {
        distinct_sizes(sizes.drop_last())
    } else {
        distinct_sizes(sizes.drop_last()).push(sizes.last())
    }
}

/// The bytes that keeping one file of each size and removing the others
/// would free: over all size buckets, size times members less one.
pub open spec fn potential_savings(sizes: Seq<u64>) -> nat {
    savings_over(sizes, distinct_sizes(sizes))
}

/// Takes note of every entry, in order: each regular file with content is
/// appended to the bucket of its size and counted, everything else is
/// passed over. Buckets that were there before keep their members in front.
/// Returns the paths to warn about: the regular files whose size could not
/// be found out.
pub fn collect_files(
    entries: &[Entry],
    files_by_size: &mut HashMap<u64, Vec<FileInfo>>,
    total_files: &mut usize,
) -> (warnings: Vec<PathBuf>)
    ensures
        warnings@ == unreadable_paths(entries@),
        forall|size: u64| #[trigger]
            final(files_by_size)@.contains_key(size) <==> old(files_by_size)@.contains_key(size)
                || recorded_of_size(entries@, size).len() > 0,
        forall|size: u64| #[trigger]
            bucket_of(final(files_by_size)@, size) == bucket_of(old(files_by_size)@, size)
                + recorded_of_size(entries@, size),
        *final(total_files) == capped_count(
            *old(total_files) + recorded_files(entries@).len(),
        ),
        buckets_wf(old(files_by_size)@) ==> buckets_wf(final(files_by_size)@),
{
    let mut warnings: Vec<PathBuf> = Vec::new();
    let mut i: usize = 0;
    assert(entries@.take(0) == Seq::<Entry>::empty());
    assert forall|size: u64| #[trigger]
        bucket_of(files_by_size@, size) == bucket_of(old(files_by_size)@, size) + recorded_of_size(
            entries@.take(0),
            size,
        ) by {
        assert(bucket_of(old(files_by_size)@, size) + Seq::<FileInfo>::empty() == bucket_of(
            old(files_by_size)@,
            size,
        ));
    }
    while i < entries.len()
        invariant
            i <= entries@.len(),
            forall|size: u64| #[trigger]
                files_by_size@.contains_key(size) <==> old(files_by_size)@.contains_key(size)
                    || recorded_of_size(entries@.take(i as int), size).len() > 0,
            forall|size: u64| #[trigger]
                bucket_of(files_by_size@, size) == bucket_of(old(files_by_size)@, size)
                    + recorded_of_size(entries@.take(i as int), size),
            *total_files == capped_count(
                *old(total_files) + recorded_files(entries@.take(i as int)).len(),
            ),
            buckets_wf(old(files_by_size)@) ==> buckets_wf(files_by_size@),
            warnings@ == unreadable_paths(entries@.take(i as int)),
        decreases entries@.len() - i,
    {
        let ghost before = files_by_size@;
        let outcome = record_entry(&entries[i], files_by_size, total_files);
        match outcome {
            Discovery::Unreadable => {
                warnings.push(entries[i].path.clone());
            },
            _ => {},
        }
        proof {
            let entry = entries@[i as int];
            let seen = entries@.take(i as int);
            let now = entries@.take(i + 1);
            assert(now.drop_last() == seen);
            assert(now.last() == entry);
            assert forall|size: u64| #[trigger]
                bucket_of(files_by_size@, size) == bucket_of(old(files_by_size)@, size)
                    + recorded_of_size(now, size) by {
                assert(bucket_of(before, size) == bucket_of(old(files_by_size)@, size)
                    + recorded_of_size(seen, size));
                if outcome is Recorded {
                    let recorded = entry.size.unwrap();
                    if size == recorded {
                        assert((bucket_of(old(files_by_size)@, size) + recorded_of_size(
                            seen,
                            size,
                        )).push(recorded_file(entry)) == bucket_of(old(files_by_size)@, size)
                            + recorded_of_size(seen, size).push(recorded_file(entry)));
                    } else {
                        assert(files_by_size@.remove(recorded).contains_key(size)
                            == before.remove(recorded).contains_key(size));
                        assert(files_by_size@.remove(recorded)[size] == before.remove(
                            recorded,
                        )[size]);
                    }
                }
            }
            assert forall|size: u64| #[trigger]
                files_by_size@.contains_key(size) <==> old(files_by_size)@.contains_key(size)
                    || recorded_of_size(now, size).len() > 0 by {
                assert(before.contains_key(size) <==> old(files_by_size)@.contains_key(size)
                    || recorded_of_size(seen, size).len() > 0);
            }
            if buckets_wf(old(files_by_size)@) {
                assert forall|size: u64| #[trigger] files_by_size@.contains_key(size) implies size
                    > 0 && files_by_size@[size]@.len() > 0 && forall|k: int|
                    0 <= k < files_by_size@[size]@.len() ==> (#[trigger] files_by_size@[size]@[k]).size
                        == size by {
                    if outcome is Recorded {
                        let recorded = entry.size.unwrap();
                        if size == recorded {
                            assert(bucket_of(files_by_size@, size) == bucket_of(before, size).push(
                                recorded_file(entry),
                            ));
                            if before.contains_key(size) {
                                assert(forall|k: int|
                                    0 <= k < before[size]@.len() ==> (
                                    #[trigger] before[size]@[k]).size == size);
                            }
                        } else {
                            assert(files_by_size@.remove(recorded).contains_key(size)
                                == before.remove(recorded).contains_key(size));
                            assert(files_by_size@.remove(recorded)[size] == before.remove(
                                recorded,
                            )[size]);
                            assert(before.contains_key(size));
                        }
                    } else {
                        assert(before.contains_key(size));
                    }
                }
            }
        }
        i += 1;
    }
    assert(entries@.take(i as int) == entries@);
    warnings
}

/// The records of every regular file with content among `entries`, in order.
pub fn collect_files_for_size_calc(entries: &[Entry]) -> (files: Vec<FileInfo>)
    ensures
        files@ == recorded_files(entries@),
{
    let mut files: Vec<FileInfo> = Vec::new();
    let mut i: usize = 0;
    assert(entries@.take(0) == Seq::<Entry>::empty());
    while i < entries.len()
        invariant
            i <= entries@.len(),
            files@ == recorded_files(entries@.take(i as int)),
        decreases entries@.len() - i,
    {
        assert(entries@.take(i + 1).drop_last() == entries@.take(i as int));
        let entry = &entries[i];
        match (entry.kind, entry.size) {
            (EntryKind::File, Some(size)) => {
                if size > 0 {
                    files.push(FileInfo::new(entry.path.clone(), size));
                }
            },
            _ => {},
        }
        i += 1;
    }
    assert(entries@.take(i as int) == entries@);
    files
}

/// Only regular files with content are recorded: every record filed under
/// a size comes from an entry that is a regular file of that size, the size
/// is not zero, and the record has no digest yet. Directories, symbolic
/// links and whatever else is met are never recorded, whatever size is
/// reported for them.
pub proof fn lemma_only_files_with_content_are_recorded(entries: Seq<Entry>, size: u64)
    ensures
        forall|k: int|
            0 <= k < recorded_of_size(entries, size).len() ==> {
                let file = #[trigger] recorded_of_size(entries, size)[k];
                &&& file.size == size
                &&& size > 0
                &&& file.hash is None
                &&& exists|j: int|
                    0 <= j < entries.len() && (#[trigger] entries[j]).kind is File && entries[j].size
                        == Some(size) && entries[j].path == file.path
            },
        size == 0 ==> recorded_of_size(entries, size).len() == 0,
    decreases entries.len(),
{
    if entries.len() > 0 {
        let earlier = entries.drop_last();
        let last = entries.last();
        let before = recorded_of_size(earlier, size);
        let all = recorded_of_size(entries, size);
        lemma_only_files_with_content_are_recorded(earlier, size);
        assert forall|k: int| 0 <= k < all.len() implies {
            let file = #[trigger] all[k];
            &&& file.size == size
            &&& size > 0
            &&& file.hash is None
            &&& exists|j: int|
                0 <= j < entries.len() && (#[trigger] entries[j]).kind is File && entries[j].size
                    == Some(size) && entries[j].path == file.path
        } by {
            if k < before.len() {
                assert(all[k] == before[k]);
                let j = choose|j: int|
                    0 <= j < earlier.len() && (#[trigger] earlier[j]).kind is File && earlier[j].size
                        == Some(size) && earlier[j].path == before[k].path;
                assert(entries[j] == earlier[j]);
            } else {
                assert(all[k] == recorded_file(last));
                assert(entries[entries.len() - 1] == last);
            }
        }
    }
}

/// Buckets that are well formed are, as mathematics, filed under the size
/// of their members, and none is for empty files.
pub proof fn lemma_wf_buckets_are_uniform(files_by_size: Map<u64, Vec<FileInfo>>)
    requires
        buckets_wf(files_by_size),
    ensures
        forall|size: u64| #[trigger]
            size_buckets(files_by_size).contains_key(size) ==> size > 0 && forall|k: int|
                0 <= k < size_buckets(files_by_size)[size].len() ==> (#[trigger] size_buckets(
                    files_by_size,
                )[size][k]).size == size,
{
    assert forall|size: u64| #[trigger] size_buckets(files_by_size).contains_key(size) implies size
        > 0 && forall|k: int|
        0 <= k < size_buckets(files_by_size)[size].len() ==> (#[trigger] size_buckets(
            files_by_size,
        )[size][k]).size == size by {
        assert(files_by_size.contains_key(size));
        assert forall|k: int| 0 <= k < size_buckets(files_by_size)[size].len() implies (
        #[trigger] size_buckets(files_by_size)[size][k]).size == size by {
            assert(files_by_size[size]@[k].size == size);
        }
    }
}

/// The sizes of all files that are not the first of their size, added up.
pub open spec fn repeated_bytes(sizes: Seq<u64>) -> nat
    decreases sizes.len(),
{
    if sizes.len() == 0 {
        0
    } else {
        repeated_bytes(sizes.drop_last()) + if sizes.drop_last().contains(sizes.last()) {
            sizes.last() as nat
        } else {
            0nat
        }
    }
}

/// Whether `buckets` names every size that occurs in `sizes`.
pub open spec fn covers(buckets: Seq<u64>, sizes: Seq<u64>) -> bool {
    forall|i: int| 0 <= i < sizes.len() ==> buckets.contains(#[trigger] sizes[i])
}

proof fn lemma_members_positive(sizes: Seq<u64>, size: u64)
    ensures
        bucket_members(sizes, size) > 0 <==> sizes.contains(size),
    decreases sizes.len(),
{
    if sizes.len() > 0 {
        let earlier = sizes.drop_last();
        lemma_members_positive(earlier, size);
        if sizes.last() == size {
            assert(sizes[sizes.len() - 1] == size);
        } else if earlier.contains(size) {
            let k = choose|k: int| 0 <= k < earlier.len() && earlier[k] == size;
            assert(sizes[k] == size);
        } else if sizes.contains(size) {
            let k = choose|k: int| 0 <= k < sizes.len() && sizes[k] == size;
            assert(earlier[k] == size);
        }
    }
}

proof fn lemma_savings_of_nothing(buckets: Seq<u64>)
    ensures
        savings_over(Seq::empty(), buckets) == 0,
    decreases buckets.len(),
{
    if buckets.len() > 0 {
        lemma_savings_of_nothing(buckets.drop_last());
    }
}

/// One more file of size `added` frees `added` more bytes if its bucket is
/// named and had a member before, and nothing more otherwise.
proof fn lemma_savings_push(sizes: Seq<u64>, added: u64, buckets: Seq<u64>)
    requires
        buckets.no_duplicates(),
    ensures
        savings_over(sizes.push(added), buckets) == savings_over(sizes, buckets) + if buckets.contains(
            added,
        ) && sizes.contains(added) {
            added as nat
        } else {
            0nat
        },
    decreases buckets.len(),
{
    if buckets.len() > 0 {
        let rest = buckets.drop_last();
        let bucket = buckets.last();
        lemma_savings_push(sizes, added, rest);
        lemma_members_positive(sizes, added);
        assert(sizes.push(added).drop_last() == sizes);
        let before = bucket_members(sizes, bucket);
        assert(bucket_members(sizes.push(added), bucket) == before + if added == bucket {
            1nat
        } else {
            0nat
        });
        if bucket == added {
            assert(buckets[buckets.len() - 1] == added);
            assert(!rest.contains(added)) by {
                if rest.contains(added) {
                    let k = choose|k: int| 0 <= k < rest.len() && rest[k] == added;
                    assert(buckets[k] == buckets[buckets.len() - 1]);
                }
            }
            if before > 0 {
                assert(added * before == added * (before - 1) + added) by (nonlinear_arith);
            } else {
                assert(added * 0 == 0) by (nonlinear_arith);
            }
        } else {
            if buckets.contains(added) {
                let k = choose|k: int| 0 <= k < buckets.len() && buckets[k] == added;
                assert(rest[k] == added);
            }
            if rest.contains(added) {
                let k = choose|k: int| 0 <= k < rest.len() && rest[k] == added;
                assert(buckets[k] == added);
            }
        }
    }
}

/// In whatever order the size buckets are taken, the savings are the sizes
/// of all files that are not the first of their size.
pub proof fn lemma_savings_in_any_order(sizes: Seq<u64>, buckets: Seq<u64>)
    requires
        buckets.no_duplicates(),
        covers(buckets, sizes),
    ensures
        savings_over(sizes, buckets) == repeated_bytes(sizes),
    decreases sizes.len(),
{
    if sizes.len() == 0 {
        assert(sizes == Seq::<u64>::empty());
        lemma_savings_of_nothing(buckets);
    } else {
        let earlier = sizes.drop_last();
        assert forall|i: int| 0 <= i < earlier.len() implies buckets.contains(
            #[trigger] earlier[i],
        ) by {
            assert(earlier[i] == sizes[i]);
        }
        lemma_savings_in_any_order(earlier, buckets);
        lemma_savings_push(earlier, sizes.last(), buckets);
        assert(earlier.push(sizes.last()) == sizes);
        assert(buckets.contains(sizes[sizes.len() - 1]));
    }
}

proof fn lemma_distinct_sizes(sizes: Seq<u64>)
    ensures
        distinct_sizes(sizes).no_duplicates(),
        forall|size: u64| distinct_sizes(sizes).contains(size) <==> sizes.contains(size),
    decreases sizes.len(),
{
    if sizes.len() > 0 {
        let earlier = sizes.drop_last();
        let last = sizes.last();
        let before = distinct_sizes(earlier);
        let all = distinct_sizes(sizes);
        lemma_distinct_sizes(earlier);
        assert forall|size: u64| all.contains(size) <==> sizes.contains(size) by {
            if sizes.contains(size) {
                let k = choose|k: int| 0 <= k < sizes.len() && sizes[k] == size;
                if k < earlier.len() {
                    assert(earlier[k] == size);
                }
            }
            if earlier.contains(size) {
                let k = choose|k: int| 0 <= k < earlier.len() && earlier[k] == size;
                assert(sizes[k] == size);
            }
            assert(sizes[sizes.len() - 1] == last);
            if !earlier.contains(last) {
                assert(all == before.push(last));
                assert(all[before.len() as int] == last);
                if before.contains(size) {
                    let k = choose|k: int| 0 <= k < before.len() && before[k] == size;
                    assert(all[k] == size);
                }
                if all.contains(size) {
                    let k = choose|k: int| 0 <= k < all.len() && all[k] == size;
                    if k < before.len() {
                        assert(before[k] == size);
                    }
                }
            }
        }
        if !earlier.contains(last) {
            assert(!before.contains(last));
            assert forall|i: int, j: int| 0 <= i < all.len() && 0 <= j < all.len() && i
                != j implies all[i] != all[j] by {
                if i < before.len() && j < before.len() {
                    assert(before[i] != before[j]);
                } else if i < before.len() {
                    assert(before[i] == all[i]);
                } else {
                    assert(before[j] == all[j]);
                }
            }
        }
    }
}

/// The potential savings are the sizes of all files that are not the first
/// of their size: each redundant copy counts once.
pub proof fn lemma_savings_count_later_copies(sizes: Seq<u64>)
    ensures
        potential_savings(sizes) == repeated_bytes(sizes),
{
    lemma_distinct_sizes(sizes);
    assert forall|i: int| 0 <= i < sizes.len() implies distinct_sizes(sizes).contains(
        #[trigger] sizes[i],
    ) by {
        assert(sizes.contains(sizes[i]));
    }
    lemma_savings_in_any_order(sizes, distinct_sizes(sizes));
}

/// Takes one more file of `size` into account, after the files of the
/// sizes `counted`: a size seen before adds its bytes to the savings, which
/// stop at their maximum; a new size is remembered.
pub(crate) fn count_file(
    size: u64,
    seen: &mut HashSet<u64>,
    savings: &mut u64,
    Ghost(counted): Ghost<Seq<u64>>,
)
    requires
        forall|other: u64| old(seen)@.contains(other) <==> counted.contains(other),
        *old(savings) == capped_bytes(repeated_bytes(counted) as int),
    ensures
        forall|other: u64| final(seen)@.contains(other) <==> counted.push(size).contains(other),
        *final(savings) == capped_bytes(repeated_bytes(counted.push(size)) as int),
{
    broadcast use vstd::std_specs::hash::group_hash_axioms;

    proof {
        let after = counted.push(size);
        assert(after.drop_last() == counted);
        assert(after.last() == size);
        assert forall|other: u64| (seen@.contains(other) || other == size) <==> after.contains(
            other,
        ) by {
            if counted.contains(other) {
                let k = choose|k: int| 0 <= k < counted.len() && counted[k] == other;
                assert(after[k] == other);
            }
            if after.contains(other) {
                let k = choose|k: int| 0 <= k < after.len() && after[k] == other;
                if k < counted.len() {
                    assert(counted[k] == other);
                }
            }
            assert(after[counted.len() as int] == size);
        }
    }
    if seen.contains(&size) {
        *savings = savings.saturating_add(size);
    } else {
        seen.insert(size);
    }
}

/// The potential savings of `files`: for every size, that size times the
/// number of files of that size beyond the first. A sum too large for `u64`
/// stops at its maximum.
pub fn calculate_potential_savings(files: &[FileInfo]) -> (savings: u64)
    ensures
        savings == capped_bytes(potential_savings(sizes_of(files@)) as int),
{
    let ghost sizes = sizes_of(files@);
    let mut seen: HashSet<u64> = HashSet::new();
    let mut savings: u64 = 0;
    let mut i: usize = 0;
    while i < files.len()
        invariant
            i <= files@.len(),
            sizes == sizes_of(files@),
            forall|size: u64| seen@.contains(size) <==> sizes.take(i as int).contains(size),
            savings == capped_bytes(repeated_bytes(sizes.take(i as int)) as int),
        decreases files@.len() - i,
    {
        assert(sizes.take(i + 1) == sizes.take(i as int).push(files@[i as int].size));
        count_file(files[i].size, &mut seen, &mut savings, Ghost(sizes.take(i as int)));
        i += 1;
    }
    proof {
        assert(sizes.take(i as int) == sizes);
        lemma_savings_count_later_copies(sizes);
    }
    savings
}

} // verus!
