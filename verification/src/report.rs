//! The figures of the read-only report on a set of duplicate groups.

use crate::buckets::{
    count_file, lemma_savings_count_later_copies, potential_savings, repeated_bytes, sizes_of,
};
use crate::file_info::FileInfo;
use crate::groups::DuplicateGroup;
use crate::capped::{capped_bytes, capped_count};
use std::collections::HashSet;
use vstd::prelude::*;

verus! {

/// How the report labels a member of a group.
#[derive(Debug, Clone, Copy, PartialEq, Eq, Structural)]
pub enum Label {
    /// The member to keep: by convention the first.
    Keep,
    /// A redundant copy.
    Duplicate,
}

/// The label of the member at `position` of its group.
pub fn label(position: usize) -> (label: Label)
    ensures
        label == if position == 0 {
            Label::Keep
        } else {
            Label::Duplicate
        },
{
    if position == 0 {
        Label::Keep
    } else {
        Label::Duplicate
    }
}

/// The number of members of all `groups` together.
pub open spec fn total_members(groups: Seq<DuplicateGroup>) -> nat
    decreases groups.len(),
{
    if groups.len() == 0 {
        0
    } else {
        total_members(groups.drop_last()) + groups.last().files@.len()
    }
}

/// The closing figures of a report.
#[derive(Debug, Clone, Copy, PartialEq, Eq, Structural)]
pub struct Summary {
    /// How many duplicate groups there are.
    pub groups: usize,
    /// How many files are in them.
    pub duplicate_files: usize,
    /// How many files could go if one member of each group is kept.
    pub removable_files: usize,
}

/// The figures of `groups`: their number, their members, and the members
/// beyond one per group. A count too large for `usize` stops at its maximum.
pub fn summarize(groups: &[DuplicateGroup]) -> (summary: Summary)
    ensures
        summary.groups == groups@.len(),
        summary.duplicate_files == capped_count(total_members(groups@) as int),
        summary.removable_files == if summary.duplicate_files >= groups@.len() {
            summary.duplicate_files - groups@.len()
        } else {
            0
        },
{
    let mut duplicate_files: usize = 0;
    let mut i: usize = 0;
    while i < groups.len()
        invariant
            i <= groups@.len(),
            duplicate_files == capped_count(total_members(groups@.take(i as int)) as int),
        decreases groups@.len() - i,
    {
        assert(groups@.take(i + 1).drop_last() == groups@.take(i as int));
        duplicate_files = duplicate_files.saturating_add(groups[i].files.len());
        i += 1;
    }
    assert(groups@.take(i as int) == groups@);
    Summary {
        groups: groups.len(),
        duplicate_files,
        removable_files: duplicate_files.saturating_sub(groups.len()),
    }
}

/// The sizes of the files of all roots, root after root: one enumeration
/// of everything the report looks at.
pub open spec fn all_sizes(roots: Seq<Vec<FileInfo>>) -> Seq<u64>
    decreases roots.len(),
{
    if roots.len() == 0 {
        Seq::empty()
    } else {
        all_sizes(roots.drop_last()) + sizes_of(roots.last()@)
    }
}

/// The potential savings the report shows: over the size buckets of all
/// roots taken together, size times members less one. Files of one size
/// share a bucket wherever they were found, so a copy under another root
/// counts like one under the same root. A sum too large for `u64` stops at
/// its maximum.
pub fn report_savings(roots: &[Vec<FileInfo>]) -> (savings: u64)
    ensures
        savings == capped_bytes(potential_savings(all_sizes(roots@)) as int),
{
    let ghost mut counted: Seq<u64> = Seq::empty();
    let mut seen: HashSet<u64> = HashSet::new();
    let mut savings: u64 = 0;
    let mut i: usize = 0;
    assert(roots@.take(0) == Seq::<Vec<FileInfo>>::empty());
    while i < roots.len()
        invariant
            i <= roots@.len(),
            counted == all_sizes(roots@.take(i as int)),
            forall|size: u64| seen@.contains(size) <==> counted.contains(size),
            savings == capped_bytes(repeated_bytes(counted) as int),
        decreases roots@.len() - i,
    {
        let files = &roots[i];
        let ghost earlier = counted;
        let ghost sizes = sizes_of(files@);
        let mut j: usize = 0;
        assert(earlier + sizes.take(0) == earlier);
        while j < files.len()
            invariant
                j <= files@.len(),
                sizes == sizes_of(files@),
                counted == earlier + sizes.take(j as int),
                forall|size: u64| seen@.contains(size) <==> counted.contains(size),
                savings == capped_bytes(repeated_bytes(counted) as int),
            decreases files@.len() - j,
        {
            assert(counted.push(files@[j as int].size) == earlier + sizes.take(j + 1));
            count_file(files[j].size, &mut seen, &mut savings, Ghost(counted));
            proof {
                counted = counted.push(files@[j as int].size);
            }
            j += 1;
        }
        proof {
            assert(sizes.take(j as int) == sizes);
            assert(roots@.take(i + 1).drop_last() == roots@.take(i as int));
            assert(roots@.take(i + 1).last() == roots@[i as int]);
        }
        i += 1;
    }
    proof {
        assert(roots@.take(i as int) == roots@);
        lemma_savings_count_later_copies(counted);
    }
    savings
}

} // verus!
