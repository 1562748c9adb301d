//! Duplicate groups: files of one size whose content has one digest.

use crate::buckets::{buckets_wf, lemma_wf_buckets_are_uniform, size_buckets};
use crate::file_info::{records, FileInfo, FileRecord};
use crate::hasher::{content_digest, lemma_hex16_injective, xxh3_64};
use crate::order::{
    ascending, is_ascending, lemma_ascending_exists, lemma_ascending_listing, lists,
    sort_ascending,
};
use std::collections::HashMap;
use vstd::prelude::*;

verus! {

/// Mathematical view of a [`DuplicateGroup`].
pub struct GroupRecord {
    pub size: u64,
    pub hash: Seq<char>,
    pub files: Seq<FileRecord>,
}

impl GroupRecord {
    /// Every member has the group's size and digest, and there are at least two.
    pub open spec fn wf(self) -> bool {
        &&& self.files.len() >= 2
        &&& forall|i: int|
            0 <= i < self.files.len() ==> (#[trigger] self.files[i]).size == self.size
                && self.files[i].hash == Some(self.hash)
    }
}

/// Files that hold the same bytes, in discovery order. By convention the
/// first member is the one to keep.
#[derive(Debug, Clone)]
pub struct DuplicateGroup {
    pub size: u64,
    pub hash: String,
    pub files: Vec<FileInfo>,
}

impl View for DuplicateGroup {
    type V = GroupRecord;

    open spec fn view(&self) -> GroupRecord {
        GroupRecord { size: self.size, hash: self.hash@, files: records(self.files@) }
    }
}

/// The views of a sequence of groups, in order.
pub open spec fn group_records(groups: Seq<DuplicateGroup>) -> Seq<GroupRecord> {
    Seq::new(groups.len(), |i: int| groups[i]@)
}

/// The members of `bucket` whose digest is `digest`, in order.
pub open spec fn with_digest(bucket: Seq<FileRecord>, digest: Seq<char>) -> Seq<FileRecord>
    decreases bucket.len(),
{
    if bucket.len() == 0 {
        Seq::empty()
    } else if bucket.last().hash == Some(digest) {
        with_digest(bucket.drop_last(), digest).push(bucket.last())
    } else {
        with_digest(bucket.drop_last(), digest)
    }
}

/// The digests that occur in `bucket`, each where it first occurs. A file
/// without a digest contributes none.
pub open spec fn digests(bucket: Seq<FileRecord>) -> Seq<Seq<char>>
    decreases bucket.len(),
{
    if bucket.len() == 0 {
        Seq::empty()
    } else {
        let earlier = digests(bucket.drop_last());
        match bucket.last().hash {
            Some(digest) => if earlier.contains(digest) {
                earlier
            } else {
                earlier.push(digest)
            },
            None => earlier,
        }
    }
}

/// One group for each of `digests` that at least two members of `bucket`
/// share, in the order of `digests`.
pub open spec fn groups_among(
    size: u64,
    bucket: Seq<FileRecord>,
    digests: Seq<Seq<char>>,
) -> Seq<GroupRecord>
    decreases digests.len(),
{
    if digests.len() == 0 {
        Seq::empty()
    } else {
        let earlier = groups_among(size, bucket, digests.drop_last());
        let members = with_digest(bucket, digests.last());
        if members.len() >= 2 {
            earlier.push(GroupRecord { size, hash: digests.last(), files: members })
        } else {
            earlier
        }
    }
}

/// The duplicate groups of one size bucket: its members partitioned by
/// digest, each partition of two or more a group, in the order in which the
/// digests first occur.
pub open spec fn bucket_groups(size: u64, bucket: Seq<FileRecord>) -> Seq<GroupRecord> {
    groups_among(size, bucket, digests(bucket))
}

/// Whether some member of `bucket` has the digest `digest`.
pub open spec fn occurs(bucket: Seq<FileRecord>, digest: Seq<char>) -> bool {
    exists|k: int| 0 <= k < bucket.len() && (#[trigger] bucket[k]).hash == Some(digest)
}

/// The digests of a bucket are listed once each, and they are those of its
/// members.
pub proof fn lemma_digests(bucket: Seq<FileRecord>)
    ensures
        digests(bucket).no_duplicates(),
        forall|digest: Seq<char>| digests(bucket).contains(digest) <==> occurs(bucket, digest),
        forall|digest: Seq<char>| with_digest(bucket, digest).len() > 0 <==> occurs(bucket, digest),
    decreases bucket.len(),
{
    if bucket.len() > 0 {
        let earlier = bucket.drop_last();
        let last = bucket.last();
        let before = digests(earlier);
        let all = digests(bucket);
        lemma_digests(earlier);
        assert forall|digest: Seq<char>| occurs(bucket, digest) <==> occurs(earlier, digest)
            || last.hash == Some(digest) by {
            if occurs(bucket, digest) {
                let k = choose|k: int|
                    0 <= k < bucket.len() && (#[trigger] bucket[k]).hash == Some(digest);
                if k < earlier.len() {
                    assert(earlier[k].hash == Some(digest));
                }
            }
            if occurs(earlier, digest) {
                let k = choose|k: int|
                    0 <= k < earlier.len() && (#[trigger] earlier[k]).hash == Some(digest);
                assert(bucket[k].hash == Some(digest));
            }
            if last.hash == Some(digest) {
                assert(bucket[bucket.len() - 1].hash == Some(digest));
            }
        }
        match last.hash {
            Some(found) => {
                if !before.contains(found) {
                    assert(all == before.push(found));
                    assert(all[before.len() as int] == found);
                    assert forall|digest: Seq<char>| all.contains(digest) <==> before.contains(
                        digest,
                    ) || digest == found by {
                        if before.contains(digest) {
                            let k = choose|k: int| 0 <= k < before.len() && before[k] == digest;
                            assert(all[k] == digest);
                        }
                        if all.contains(digest) {
                            let k = choose|k: int| 0 <= k < all.len() && all[k] == digest;
                            if k < before.len() {
                                assert(before[k] == digest);
                            }
                        }
                    }
                    assert forall|i: int, j: int|
                        0 <= i < all.len() && 0 <= j < all.len() && i != j implies all[i]
                        != all[j] by {
                        if i < before.len() && j < before.len() {
                            assert(before[i] != before[j]);
                        } else if i < before.len() {
                            assert(before[i] == all[i]);
                        } else {
                            assert(before[j] == all[j]);
                        }
                    }
                }
            },
            None => {},
        }
    }
}

/// The position of the partition whose digest is `hash`, or the number of
/// partitions where there is none.
fn partition_of(partitions: &Vec<DuplicateGroup>, hash: &String) -> (at: usize)
    ensures
        at <= partitions@.len(),
        at < partitions@.len() ==> partitions@[at as int].hash@ == hash@,
        at == partitions@.len() ==> forall|k: int|
            0 <= k < partitions@.len() ==> (#[trigger] partitions@[k]).hash@ != hash@,
{
    let mut at: usize = 0;
    while at < partitions.len()
        invariant
            at <= partitions@.len(),
            forall|k: int| 0 <= k < at ==> (#[trigger] partitions@[k]).hash@ != hash@,
        decreases partitions@.len() - at,
    {
        if partitions[at].hash == *hash {
            return at;
        }
        at += 1;
    }
    at
}

/// The duplicate groups of the bucket of `size`: its members are
/// partitioned by digest, in discovery order, and every partition with at
/// least two members becomes a group. Members without a digest are left out.
pub fn group_bucket(size: u64, bucket: Vec<FileInfo>) -> (groups: Vec<DuplicateGroup>)
    ensures
        group_records(groups@) == bucket_groups(size, records(bucket@)),
{
    let ghost all = records(bucket@);
    let mut partitions: Vec<DuplicateGroup> = Vec::new();
    assert(all.take(0) == Seq::<FileRecord>::empty());
    for file in iter: bucket
        invariant
            iter.seq() == bucket@,
            all == records(bucket@),
            partitions@.len() == digests(all.take(iter.index())).len(),
            forall|p: int|
                0 <= p < partitions@.len() ==> {
                    &&& (#[trigger] partitions@[p]).size == size
                    &&& partitions@[p].hash@ == digests(all.take(iter.index()))[p]
                    &&& records(partitions@[p].files@) == with_digest(
                        all.take(iter.index()),
                        partitions@[p].hash@,
                    )
                },
            iter.index() == iter.seq().len() ==> all.take(iter.index()) =~= all,
    {
        let ghost seen = all.take(iter.index());
        let ghost now = all.take(iter.index() + 1);
        let ghost listed = digests(seen);
        let ghost before = partitions@;
        proof {
            assert(now.drop_last() == seen);
            assert(now.last() == file@);
            lemma_digests(seen);
        }
        let digest: Option<String> = match &file.hash {
            Some(hash) => Some(hash.clone()),
            None => None,
        };
        match digest {
            None => {},
            Some(hash) => {
                let at = partition_of(&partitions, &hash);
                if at < partitions.len() {
                    assert(listed[at as int] == hash@);
                    assert(listed.contains(hash@));
                    partitions[at].files.push(file);
                    proof {
                        assert(records(partitions@[at as int].files@) == records(
                            before[at as int].files@,
                        ).push(file@));
                        assert forall|p: int| 0 <= p < partitions@.len() implies {
                            &&& (#[trigger] partitions@[p]).size == size
                            &&& partitions@[p].hash@ == digests(now)[p]
                            &&& records(partitions@[p].files@) == with_digest(
                                now,
                                partitions@[p].hash@,
                            )
                        } by {
                            if p != at {
                                assert(partitions@[p] == before[p]);
                                assert(listed[p] != listed[at as int]);
                            }
                        }
                    }
                } else {
                    proof {
                        assert(!listed.contains(hash@)) by {
                            if listed.contains(hash@) {
                                let k = choose|k: int| 0 <= k < listed.len() && listed[k] == hash@;
                                assert(before[k].hash@ != hash@);
                            }
                        }
                        assert(!occurs(seen, hash@));
                        assert(!(with_digest(seen, hash@).len() > 0));
                    }
                    let mut files: Vec<FileInfo> = Vec::new();
                    files.push(file);
                    partitions.push(DuplicateGroup { size, hash, files });
                    proof {
                        assert(digests(now) == listed.push(hash@));
                        assert(records(files@) =~= with_digest(seen, hash@).push(file@));
                        assert forall|p: int| 0 <= p < partitions@.len() implies {
                            &&& (#[trigger] partitions@[p]).size == size
                            &&& partitions@[p].hash@ == digests(now)[p]
                            &&& records(partitions@[p].files@) == with_digest(
                                now,
                                partitions@[p].hash@,
                            )
                        } by {
                            if p < before.len() {
                                assert(partitions@[p] == before[p]);
                                assert(before[p].hash@ != hash@);
                            }
                        }
                    }
                }
            },
        }
    }
    let ghost listed = digests(all);
    let ghost parts = partitions@;
    let mut groups: Vec<DuplicateGroup> = Vec::new();
    assert(listed.take(0) == Seq::<Seq<char>>::empty());
    assert(group_records(groups@) =~= groups_among(size, all, listed.take(0)));
    for partition in iter: partitions
        invariant
            iter.seq() == parts,
            parts.len() == listed.len(),
            forall|p: int|
                0 <= p < parts.len() ==> {
                    &&& (#[trigger] parts[p]).size == size
                    &&& parts[p].hash@ == listed[p]
                    &&& records(parts[p].files@) == with_digest(all, parts[p].hash@)
                },
            group_records(groups@) == groups_among(size, all, listed.take(iter.index())),
            iter.index() == iter.seq().len() ==> listed.take(iter.index()) =~= listed,
    {
        let ghost before = groups@;
        proof {
            assert(listed.take(iter.index() + 1).drop_last() == listed.take(iter.index()));
            assert(listed.take(iter.index() + 1).last() == listed[iter.index()]);
            assert(partition == parts[iter.index()]);
            assert(records(partition.files@).len() == partition.files@.len());
        }
        if partition.files.len() >= 2 {
            groups.push(partition);
            assert(group_records(groups@) =~= group_records(before).push(partition@));
        }
    }
    groups
}

/// The sizes whose bucket has at least two members: only these are
/// promoted to hashing and grouping.
pub open spec fn promoted(buckets: Map<u64, Seq<FileRecord>>) -> Set<u64> {
    Set::new(|size: u64| buckets.contains_key(size) && buckets[size].len() >= 2)
}

/// The groups of the buckets of `sizes`, bucket after bucket.
pub open spec fn groups_over(buckets: Map<u64, Seq<FileRecord>>, sizes: Seq<u64>) -> Seq<
    GroupRecord,
>
    decreases sizes.len(),
{
    if sizes.len() == 0 {
        Seq::empty()
    } else {
        groups_over(buckets, sizes.drop_last()) + bucket_groups(sizes.last(), buckets[sizes.last()])
    }
}

/// The duplicate groups of a set of size buckets: the groups of every
/// promoted bucket, by ascending size.
pub open spec fn duplicate_groups(buckets: Map<u64, Seq<FileRecord>>) -> Seq<GroupRecord> {
    groups_over(buckets, ascending(promoted(buckets)))
}

/// The sizes that have a bucket, in no particular order.
fn listed_sizes(files_by_size: &HashMap<u64, Vec<FileInfo>>) -> (sizes: Vec<u64>)
    ensures
        forall|size: u64| sizes@.contains(size) <==> files_by_size@.contains_key(size),
{
    broadcast use vstd::std_specs::hash::group_hash_axioms;

    let mut sizes: Vec<u64> = Vec::new();
    for size in iter: files_by_size.keys()
        invariant
            sizes@ == iter.seq().take(iter.index()).unref(),
            iter.seq().unref().to_set() == files_by_size@.dom(),
            iter.index() == iter.seq().len() ==> sizes@ =~= iter.seq().unref(),
    {
        sizes.push(*size);
    }
    assert(sizes@.to_set() == files_by_size@.dom());
    sizes
}

/// The sizes whose bucket has at least two members, ascending: the buckets
/// whose files need a digest.
pub fn promoted_sizes(files_by_size: &HashMap<u64, Vec<FileInfo>>) -> (sizes: Vec<u64>)
    ensures
        is_ascending(sizes@),
        lists(sizes@, promoted(size_buckets(files_by_size@))),
        sizes@ == ascending(promoted(size_buckets(files_by_size@))),
{
    broadcast use vstd::std_specs::hash::group_hash_axioms;

    let ghost wanted = promoted(size_buckets(files_by_size@));
    let listed = listed_sizes(files_by_size);
    let mut found: Vec<u64> = Vec::new();
    let mut i: usize = 0;
    while i < listed.len()
        invariant
            i <= listed@.len(),
            wanted == promoted(size_buckets(files_by_size@)),
            forall|size: u64| listed@.contains(size) <==> files_by_size@.contains_key(size),
            forall|k: int| 0 <= k < found@.len() ==> wanted.contains(#[trigger] found@[k]),
            forall|k: int|
                0 <= k < i && wanted.contains(listed@[k]) ==> found@.contains(#[trigger] listed@[k]),
        decreases listed@.len() - i,
    {
        let ghost before = found@;
        let size = listed[i];
        assert(listed@.contains(listed@[i as int]));
        let members = match files_by_size.get(&size) {
            Some(bucket) => bucket.len(),
            None => 0,
        };
        if members >= 2 {
            found.push(size);
        }
        proof {
            assert forall|k: int| 0 <= k < i + 1 && wanted.contains(listed@[k]) implies found@.contains(
                #[trigger] listed@[k],
            ) by {
                if k < i {
                    let j = choose|j: int| 0 <= j < before.len() && before[j] == listed@[k];
                    assert(found@[j] == before[j]);
                } else {
                    assert(found@[before.len() as int] == size);
                }
            }
        }
        i += 1;
    }
    let sizes = sort_ascending(found.as_slice());
    proof {
        assert forall|value: u64| sizes@.contains(value) <==> wanted.contains(value) by {
            if wanted.contains(value) {
                assert(listed@.contains(value));
                let k = choose|k: int| 0 <= k < listed@.len() && listed@[k] == value;
                assert(found@.contains(listed@[k]));
            }
            if found@.contains(value) {
                let k = choose|k: int| 0 <= k < found@.len() && found@[k] == value;
                assert(wanted.contains(found@[k]));
            }
        }
        lemma_ascending_listing(sizes@, wanted);
    }
    sizes
}

/// The duplicate groups of `files_by_size`. Buckets with at least two
/// members are taken by ascending size; each is partitioned by digest, in
/// discovery order, and every partition with at least two members becomes a
/// group. A file without a digest belongs to no group.
pub fn find_duplicate_groups(files_by_size: HashMap<u64, Vec<FileInfo>>) -> (groups: Vec<
    DuplicateGroup,
>)
    ensures
        group_records(groups@) == duplicate_groups(size_buckets(files_by_size@)),
        forall|i: int|
            0 <= i < groups@.len() ==> {
                let group = (#[trigger] groups@[i])@;
                &&& group.files.len() >= 2
                &&& forall|k: int|
                    0 <= k < group.files.len() ==> (#[trigger] group.files[k]).hash == Some(
                        group.hash,
                    )
                &&& buckets_wf(files_by_size@) ==> group.wf() && group.size > 0
            },
{
    broadcast use vstd::std_specs::hash::group_hash_axioms;

    let ghost buckets = size_buckets(files_by_size@);
    let mut remaining = files_by_size;
    let sizes = promoted_sizes(&remaining);
    let mut groups: Vec<DuplicateGroup> = Vec::new();
    let mut i: usize = 0;
    assert(sizes@.take(0) == Seq::<u64>::empty());
    assert(group_records(groups@) =~= groups_over(buckets, sizes@.take(0)));
    assert forall|j: int| 0 <= j < sizes@.len() implies remaining@.contains_key(
        #[trigger] sizes@[j],
    ) by {
        assert(sizes@.contains(sizes@[j]));
        assert(promoted(buckets).contains(sizes@[j]));
    }
    while i < sizes.len()
        invariant
            i <= sizes@.len(),
            is_ascending(sizes@),
            lists(sizes@, promoted(buckets)),
            buckets == size_buckets(files_by_size@),
            forall|j: int|
                i <= j < sizes@.len() ==> remaining@.contains_key(#[trigger] sizes@[j])
                    && remaining@[sizes@[j]] == files_by_size@[sizes@[j]],
            group_records(groups@) == groups_over(buckets, sizes@.take(i as int)),
        decreases sizes@.len() - i,
    {
        let size = sizes[i];
        let ghost before = groups@;
        let ghost held = remaining@;
        proof {
            assert(sizes@.take(i + 1).drop_last() == sizes@.take(i as int));
            assert(sizes@.take(i + 1).last() == size);
            assert(sizes@.contains(sizes@[i as int]));
            assert(promoted(buckets).contains(size));
        }
        match remaining.remove(&size) {
            Some(bucket) => {
                assert(bucket == files_by_size@[size]);
                let mut found = group_bucket(size, bucket);
                let ghost added = found@;
                groups.append(&mut found);
                assert(group_records(groups@) =~= group_records(before) + group_records(added));
            },
            None => {},
        }
        proof {
            assert forall|j: int| i + 1 <= j < sizes@.len() implies remaining@.contains_key(
                #[trigger] sizes@[j],
            ) && remaining@[sizes@[j]] == files_by_size@[sizes@[j]] by {
                assert(sizes@[i as int] < sizes@[j]);
                assert(held.contains_key(sizes@[j]));
            }
        }
        i += 1;
    }
    proof {
        assert(sizes@.take(i as int) == sizes@);
        lemma_ascending_listing(sizes@, promoted(buckets));
        assert(buckets.dom() =~= files_by_size@.dom());
        assert forall|i: int| 0 <= i < groups@.len() implies {
            let group = (#[trigger] groups@[i])@;
            &&& group.files.len() >= 2
            &&& forall|k: int|
                0 <= k < group.files.len() ==> (#[trigger] group.files[k]).hash == Some(group.hash)
            &&& buckets_wf(files_by_size@) ==> group.wf() && group.size > 0
        } by {
            assert(group_records(groups@)[i] == groups@[i]@);
            lemma_groups_are_uniform(buckets, i);
            if buckets_wf(files_by_size@) {
                lemma_no_empty_file_is_grouped(files_by_size@, i);
            }
        }
    }
    groups
}

/// Every bucket is filed under the size of its members, and none is for
/// empty files.
pub open spec fn uniform(buckets: Map<u64, Seq<FileRecord>>) -> bool {
    forall|size: u64| #[trigger]
        buckets.contains_key(size) ==> size > 0 && forall|k: int|
            0 <= k < buckets[size].len() ==> (#[trigger] buckets[size][k]).size == size
}

/// The members with a digest are exactly the members of the bucket that
/// have it.
pub proof fn lemma_with_digest(bucket: Seq<FileRecord>, digest: Seq<char>)
    ensures
        with_digest(bucket, digest).len() <= bucket.len(),
        forall|k: int|
            0 <= k < with_digest(bucket, digest).len() ==> (#[trigger] with_digest(
                bucket,
                digest,
            )[k]).hash == Some(digest) && bucket.contains(with_digest(bucket, digest)[k]),
        forall|k: int|
            0 <= k < bucket.len() && bucket[k].hash == Some(digest) ==> with_digest(
                bucket,
                digest,
            ).contains(#[trigger] bucket[k]),
    decreases bucket.len(),
{
    if bucket.len() > 0 {
        let earlier = bucket.drop_last();
        let last = bucket.last();
        let before = with_digest(earlier, digest);
        let all = with_digest(bucket, digest);
        lemma_with_digest(earlier, digest);
        assert forall|k: int| 0 <= k < all.len() implies (#[trigger] all[k]).hash == Some(digest)
            && bucket.contains(all[k]) by {
            if k < before.len() {
                assert(all[k] == before[k]);
                let j = choose|j: int| 0 <= j < earlier.len() && earlier[j] == before[k];
                assert(bucket[j] == all[k]);
            } else {
                assert(bucket[bucket.len() - 1] == all[k]);
            }
        }
        assert forall|k: int| 0 <= k < bucket.len() && bucket[k].hash == Some(
            digest,
        ) implies all.contains(#[trigger] bucket[k]) by {
            if k < earlier.len() {
                assert(earlier[k] == bucket[k]);
                let j = choose|j: int| 0 <= j < before.len() && before[j] == earlier[k];
                assert(all[j] == bucket[k]);
            } else {
                assert(all[before.len() as int] == bucket[k]);
            }
        }
    }
}

/// What the groups among some digests are: one for each of the digests
/// that at least two members share, holding those members.
pub proof fn lemma_groups_among(size: u64, bucket: Seq<FileRecord>, listed: Seq<Seq<char>>)
    ensures
        forall|i: int|
            0 <= i < groups_among(size, bucket, listed).len() ==> {
                let group = #[trigger] groups_among(size, bucket, listed)[i];
                &&& group.size == size
                &&& listed.contains(group.hash)
                &&& group.files == with_digest(bucket, group.hash)
                &&& group.files.len() >= 2
            },
        forall|k: int|
            0 <= k < listed.len() && with_digest(bucket, #[trigger] listed[k]).len() >= 2
                ==> exists|i: int|
                0 <= i < groups_among(size, bucket, listed).len() && (#[trigger] groups_among(
                    size,
                    bucket,
                    listed,
                )[i]).hash == listed[k],
        listed.no_duplicates() ==> forall|i: int, j: int|
            0 <= i < j < groups_among(size, bucket, listed).len() ==> (#[trigger] groups_among(
                size,
                bucket,
                listed,
            )[i]).hash != (#[trigger] groups_among(size, bucket, listed)[j]).hash,
    decreases listed.len(),
{
    if listed.len() > 0 {
        let earlier = listed.drop_last();
        let last = listed.last();
        let before = groups_among(size, bucket, earlier);
        let all = groups_among(size, bucket, listed);
        lemma_groups_among(size, bucket, earlier);
        assert forall|i: int| 0 <= i < all.len() implies {
            let group = #[trigger] all[i];
            &&& group.size == size
            &&& listed.contains(group.hash)
            &&& group.files == with_digest(bucket, group.hash)
            &&& group.files.len() >= 2
        } by {
            if i < before.len() {
                assert(all[i] == before[i]);
                let k = choose|k: int| 0 <= k < earlier.len() && earlier[k] == before[i].hash;
                assert(listed[k] == before[i].hash);
            } else {
                assert(listed[listed.len() - 1] == last);
            }
        }
        assert forall|k: int|
            0 <= k < listed.len() && with_digest(bucket, #[trigger] listed[k]).len()
                >= 2 implies exists|i: int|
            0 <= i < all.len() && (#[trigger] all[i]).hash == listed[k] by {
            if k < earlier.len() {
                assert(earlier[k] == listed[k]);
                let i = choose|i: int|
                    0 <= i < before.len() && (#[trigger] before[i]).hash == earlier[k];
                assert(all[i].hash == listed[k]);
            } else {
                assert(all[before.len() as int].hash == listed[k]);
            }
        }
        if listed.no_duplicates() {
            assert(earlier.no_duplicates());
            assert forall|i: int, j: int| 0 <= i < j < all.len() implies (#[trigger] all[i]).hash
                != (#[trigger] all[j]).hash by {
                if j < before.len() {
                    assert(all[i] == before[i] && all[j] == before[j]);
                } else {
                    assert(all[i] == before[i]);
                    let k = choose|k: int| 0 <= k < earlier.len() && earlier[k] == before[i].hash;
                    assert(listed[k] != listed[listed.len() - 1]);
                }
            }
        }
    }
}

/// What the groups over some sizes are: for each of the sizes and each
/// digest that at least two members of its bucket share, one group holding
/// those members.
pub proof fn lemma_groups_over(buckets: Map<u64, Seq<FileRecord>>, sizes: Seq<u64>)
    ensures
        forall|i: int|
            0 <= i < groups_over(buckets, sizes).len() ==> {
                let group = #[trigger] groups_over(buckets, sizes)[i];
                &&& sizes.contains(group.size)
                &&& group.files == with_digest(buckets[group.size], group.hash)
                &&& group.files.len() >= 2
            },
        forall|k: int, digest: Seq<char>|
            0 <= k < sizes.len() && (#[trigger] with_digest(buckets[sizes[k]], digest)).len() >= 2
                ==> exists|i: int|
                0 <= i < groups_over(buckets, sizes).len() && (#[trigger] groups_over(
                    buckets,
                    sizes,
                )[i]).size == sizes[k] && groups_over(buckets, sizes)[i].hash == digest,
        sizes.no_duplicates() ==> forall|i: int, j: int|
            0 <= i < j < groups_over(buckets, sizes).len() ==> {
                let first = #[trigger] groups_over(buckets, sizes)[i];
                let second = #[trigger] groups_over(buckets, sizes)[j];
                first.size != second.size || first.hash != second.hash
            },
    decreases sizes.len(),
{
    if sizes.len() > 0 {
        let earlier = sizes.drop_last();
        let size = sizes.last();
        let bucket = buckets[size];
        let before = groups_over(buckets, earlier);
        let added = bucket_groups(size, bucket);
        let all = groups_over(buckets, sizes);
        lemma_groups_over(buckets, earlier);
        lemma_groups_among(size, bucket, digests(bucket));
        lemma_digests(bucket);
        assert(all == before + added);
        assert forall|i: int| 0 <= i < all.len() implies {
            let group = #[trigger] all[i];
            &&& sizes.contains(group.size)
            &&& group.files == with_digest(buckets[group.size], group.hash)
            &&& group.files.len() >= 2
        } by {
            if i < before.len() {
                assert(all[i] == before[i]);
                let k = choose|k: int| 0 <= k < earlier.len() && earlier[k] == before[i].size;
                assert(sizes[k] == before[i].size);
            } else {
                assert(all[i] == added[i - before.len()]);
                assert(sizes[sizes.len() - 1] == size);
            }
        }
        assert forall|k: int, digest: Seq<char>|
            0 <= k < sizes.len() && (#[trigger] with_digest(buckets[sizes[k]], digest)).len()
                >= 2 implies exists|i: int|
            0 <= i < all.len() && (#[trigger] all[i]).size == sizes[k] && all[i].hash
                == digest by {
            if k < earlier.len() {
                assert(earlier[k] == sizes[k]);
                let i = choose|i: int|
                    0 <= i < before.len() && (#[trigger] before[i]).size == earlier[k]
                        && before[i].hash == digest;
                assert(all[i] == before[i]);
            } else {
                assert(occurs(bucket, digest));
                assert(digests(bucket).contains(digest));
                let d = choose|d: int| 0 <= d < digests(bucket).len() && digests(bucket)[d] == digest;
                assert(with_digest(bucket, digests(bucket)[d]).len() >= 2);
                let i = choose|i: int|
                    0 <= i < added.len() && (#[trigger] added[i]).hash == digests(bucket)[d];
                assert(all[before.len() + i] == added[i]);
            }
        }
        if sizes.no_duplicates() {
            assert(earlier.no_duplicates());
            assert forall|i: int, j: int| 0 <= i < j < all.len() implies {
                let first = #[trigger] all[i];
                let second = #[trigger] all[j];
                first.size != second.size || first.hash != second.hash
            } by {
                if j < before.len() {
                    assert(all[i] == before[i] && all[j] == before[j]);
                } else if i < before.len() {
                    assert(all[i] == before[i]);
                    assert(all[j] == added[j - before.len()]);
                    let k = choose|k: int| 0 <= k < earlier.len() && earlier[k] == before[i].size;
                    assert(sizes[k] != sizes[sizes.len() - 1]);
                } else {
                    assert(all[i] == added[i - before.len()]);
                    assert(all[j] == added[j - before.len()]);
                }
            }
        }
    }
}

/// Every duplicate group has at least two members, all with the group's
/// digest; they are the members of the bucket of the group's size that have
/// that digest, and that bucket is promoted. Where the buckets are filed
/// under the size of their members, every member has the group's size, and
/// no group is for empty files.
pub proof fn lemma_groups_are_uniform(buckets: Map<u64, Seq<FileRecord>>, i: int)
    requires
        buckets.dom().finite(),
        0 <= i < duplicate_groups(buckets).len(),
    ensures
        ({
            let group = duplicate_groups(buckets)[i];
            &&& group.files.len() >= 2
            &&& forall|k: int| 0 <= k < group.files.len() ==> (#[trigger] group.files[k]).hash == Some(group.hash)
            &&& buckets.contains_key(group.size)
            &&& buckets[group.size].len() >= 2
            &&& group.files == with_digest(buckets[group.size], group.hash)
            &&& forall|k: int|
                0 <= k < group.files.len() ==> buckets[group.size].contains(#[trigger] group.files[k])
            &&& uniform(buckets) ==> group.wf() && group.size > 0
        }),
{
    let sizes = ascending(promoted(buckets));
    lemma_promoted_listing(buckets);
    lemma_groups_over(buckets, sizes);
    let group = duplicate_groups(buckets)[i];
    lemma_with_digest(buckets[group.size], group.hash);
    assert(promoted(buckets).contains(group.size));
    if uniform(buckets) {
        assert forall|k: int| 0 <= k < group.files.len() implies (#[trigger] group.files[k]).size
            == group.size by {
            let member = group.files[k];
            assert(buckets[group.size].contains(member));
            let j = choose|j: int| 0 <= j < buckets[group.size].len() && buckets[group.size][j] == member;
            assert(buckets[group.size][j].size == group.size);
        }
    }
}

/// The promoted sizes of finitely many buckets have an ascending listing
/// without repetition.
pub proof fn lemma_promoted_listing(buckets: Map<u64, Seq<FileRecord>>)
    requires
        buckets.dom().finite(),
    ensures
        is_ascending(ascending(promoted(buckets))),
        lists(ascending(promoted(buckets)), promoted(buckets)),
        ascending(promoted(buckets)).no_duplicates(),
{
    assert(promoted(buckets).subset_of(buckets.dom()));
    vstd::set_lib::lemma_set_subset_finite(buckets.dom(), promoted(buckets));
    lemma_ascending_exists(promoted(buckets));
}

/// Two files of one bucket that have the same digest are members of one
/// duplicate group, wherever they were found and whatever they are called.
pub proof fn lemma_duplicates_share_a_group(
    buckets: Map<u64, Seq<FileRecord>>,
    size: u64,
    first: int,
    second: int,
    digest: Seq<char>,
)
    requires
        buckets.dom().finite(),
        buckets.contains_key(size),
        0 <= first < second < buckets[size].len(),
        buckets[size][first].hash == Some(digest),
        buckets[size][second].hash == Some(digest),
    ensures
        exists|i: int|
            0 <= i < duplicate_groups(buckets).len() && {
                let group = #[trigger] duplicate_groups(buckets)[i];
                &&& group.size == size
                &&& group.hash == digest
                &&& group.files.contains(buckets[size][first])
                &&& group.files.contains(buckets[size][second])
            },
{
    let sizes = ascending(promoted(buckets));
    let bucket = buckets[size];
    lemma_promoted_listing(buckets);
    lemma_groups_over(buckets, sizes);
    lemma_with_digest(bucket, digest);
    lemma_two_members(bucket, digest, first, second);
    assert(promoted(buckets).contains(size));
    assert(sizes.contains(size));
    let k = choose|k: int| 0 <= k < sizes.len() && sizes[k] == size;
    assert(with_digest(buckets[sizes[k]], digest).len() >= 2);
    let i = choose|i: int|
        0 <= i < groups_over(buckets, sizes).len() && (#[trigger] groups_over(buckets, sizes)[i]).size
            == sizes[k] && groups_over(buckets, sizes)[i].hash == digest;
    let group = duplicate_groups(buckets)[i];
    assert(group.files == with_digest(bucket, digest));
    assert(group.files.contains(bucket[first]));
    assert(group.files.contains(bucket[second]));
}

/// Two members of a bucket with one digest make at least two members with
/// that digest.
proof fn lemma_two_members(bucket: Seq<FileRecord>, digest: Seq<char>, first: int, second: int)
    requires
        0 <= first < second < bucket.len(),
        bucket[first].hash == Some(digest),
        bucket[second].hash == Some(digest),
    ensures
        with_digest(bucket, digest).len() >= 2,
    decreases bucket.len(),
{
    let earlier = bucket.drop_last();
    if second < bucket.len() - 1 {
        assert(earlier[first] == bucket[first] && earlier[second] == bucket[second]);
        lemma_two_members(earlier, digest, first, second);
    } else {
        assert(earlier[first].hash == Some(digest));
        lemma_digests(earlier);
        assert(occurs(earlier, digest));
        assert(with_digest(earlier, digest).len() > 0);
    }
}

/// A size and a digest have at most one duplicate group, so no file is a
/// member of two.
pub proof fn lemma_groups_are_distinct(buckets: Map<u64, Seq<FileRecord>>, i: int, j: int)
    requires
        buckets.dom().finite(),
        0 <= i < j < duplicate_groups(buckets).len(),
    ensures
        duplicate_groups(buckets)[i].size != duplicate_groups(buckets)[j].size
            || duplicate_groups(buckets)[i].hash != duplicate_groups(buckets)[j].hash,
{
    lemma_promoted_listing(buckets);
    lemma_groups_over(buckets, ascending(promoted(buckets)));
}

/// Files whose contents have different XXH3 values are never members of
/// one duplicate group, whatever their sizes.
pub proof fn lemma_different_content_is_never_grouped(
    buckets: Map<u64, Seq<FileRecord>>,
    i: int,
    first: int,
    second: int,
    first_content: Seq<u8>,
    second_content: Seq<u8>,
)
    requires
        buckets.dom().finite(),
        0 <= i < duplicate_groups(buckets).len(),
        0 <= first < duplicate_groups(buckets)[i].files.len(),
        0 <= second < duplicate_groups(buckets)[i].files.len(),
        duplicate_groups(buckets)[i].files[first].hash == Some(content_digest(first_content)),
        duplicate_groups(buckets)[i].files[second].hash == Some(content_digest(second_content)),
    ensures
        xxh3_64(first_content) == xxh3_64(second_content),
{
    lemma_groups_are_uniform(buckets, i);
    lemma_hex16_injective(xxh3_64(first_content), xxh3_64(second_content));
}

/// No empty file is ever grouped: the groups of well-formed buckets, such
/// as collecting files into an empty map gives, are for a size above zero,
/// and every member has that size.
pub proof fn lemma_no_empty_file_is_grouped(files_by_size: Map<u64, Vec<FileInfo>>, i: int)
    requires
        files_by_size.dom().finite(),
        buckets_wf(files_by_size),
        0 <= i < duplicate_groups(size_buckets(files_by_size)).len(),
    ensures
        duplicate_groups(size_buckets(files_by_size))[i].size > 0,
        duplicate_groups(size_buckets(files_by_size))[i].wf(),
        forall|k: int|
            0 <= k < duplicate_groups(size_buckets(files_by_size))[i].files.len() ==> (
            #[trigger] duplicate_groups(size_buckets(files_by_size))[i].files[k]).size > 0,
{
    let buckets = size_buckets(files_by_size);
    assert(buckets.dom() =~= files_by_size.dom());
    lemma_wf_buckets_are_uniform(files_by_size);
    assert(uniform(buckets));
    lemma_groups_are_uniform(buckets, i);
}

/// Scanning twice and finding the same records gives the same groups, with
/// the same members and the same digests.
pub proof fn lemma_same_records_same_groups(
    first: Map<u64, Vec<FileInfo>>,
    second: Map<u64, Vec<FileInfo>>,
)
    requires
        first.dom() == second.dom(),
        forall|size: u64| first.contains_key(size) ==> records(first[size]@) == records(second[size]@),
    ensures
        duplicate_groups(size_buckets(first)) == duplicate_groups(size_buckets(second)),
{
    assert(size_buckets(first) =~= size_buckets(second));
}

} // verus!
