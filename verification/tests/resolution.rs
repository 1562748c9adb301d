use file_dedup::{
    check_before_delete, Choice, DeleteCheck, DuplicateGroup, FileInfo, GroupResolution,
    NothingKept, Phase, Totals,
};
use std::path::PathBuf;

fn group_of(size: u64, names: &[&str]) -> DuplicateGroup {
    DuplicateGroup {
        size,
        hash: String::from("00000000deadbeef"),
        files: names
            .iter()
            .map(|name| FileInfo {
                path: PathBuf::from(name),
                size,
                hash: Some(String::from("00000000deadbeef")),
            })
            .collect(),
    }
}

fn proposed(resolution: &GroupResolution) -> Vec<String> {
    resolution.proposal().iter().map(|f| f.path.to_str().unwrap().to_string()).collect()
}

/// Removes every file that is due, as long as it still has its size.
fn delete_all(resolution: &mut GroupResolution) {
    while let Some(file) = resolution.target() {
        assert_eq!(resolution.observe(Some(file.size)), Some(DeleteCheck::Proceed));
        resolution.removal(true);
    }
}

#[test]
fn menu_has_three_entries() {
    assert_eq!(Choice::from_index(0), Some(Choice::ManualSelect));
    assert_eq!(Choice::from_index(1), Some(Choice::Skip));
    assert_eq!(Choice::from_index(2), Some(Choice::KeepFirst));
    assert_eq!(Choice::from_index(3), None);
    assert_eq!(Choice::from_index(usize::MAX), None);
}

#[test]
fn selecting_every_member_is_refused_and_deletes_nothing() {
    let group = group_of(10, &["a", "b", "c"]);
    let mut resolution = GroupResolution::present(&group);
    assert_eq!(resolution.phase(), Phase::Presented);
    resolution.pick(Choice::ManualSelect);
    assert_eq!(resolution.phase(), Phase::AwaitingSelection);

    assert_eq!(resolution.select(&[true, true, true]), Err(NothingKept));
    assert_eq!(resolution.phase(), Phase::Aborted);
    assert!(resolution.is_finished());
    assert!(resolution.proposal().is_empty());
    assert!(resolution.target().is_none());

    // Nothing that follows can delete anything.
    resolution.confirm(true);
    assert_eq!(resolution.observe(Some(10)), None);
    resolution.removal(true);
    assert_eq!(resolution.phase(), Phase::Aborted);
    assert_eq!(resolution.deleted(), 0);

    let mut totals = Totals::new();
    totals.credit(resolution);
    assert_eq!(totals, Totals { files_deleted: 0, bytes_reclaimed: 0 });
}

#[test]
fn keep_first_of_three_removes_exactly_two() {
    let group = group_of(25, &["original.txt", "copy1.txt", "copy2.txt"]);
    let mut resolution = GroupResolution::present(&group);
    resolution.pick(Choice::KeepFirst);
    assert_eq!(resolution.phase(), Phase::AwaitingConfirmation);
    assert_eq!(proposed(&resolution), vec!["copy1.txt", "copy2.txt"]);

    resolution.confirm(true);
    assert_eq!(resolution.phase(), Phase::Deleting);
    let mut removed = Vec::new();
    while let Some(file) = resolution.target() {
        assert_eq!(resolution.observe(Some(25)), Some(DeleteCheck::Proceed));
        removed.push(file.path.clone());
        resolution.removal(true);
    }
    assert_eq!(removed, vec![PathBuf::from("copy1.txt"), PathBuf::from("copy2.txt")]);
    assert_eq!(resolution.phase(), Phase::Reported);
    assert_eq!(resolution.deleted(), 2);
    assert_eq!(group.files.len() - resolution.deleted(), 1);

    let mut totals = Totals::new();
    totals.credit(resolution);
    assert_eq!(totals, Totals { files_deleted: 2, bytes_reclaimed: 50 });
}

#[test]
fn file_whose_size_changed_is_skipped_and_the_rest_goes_on() {
    let group = group_of(100, &["keep", "changed", "gone", "fine", "stubborn"]);
    let mut resolution = GroupResolution::present(&group);
    resolution.pick(Choice::KeepFirst);
    resolution.confirm(true);

    assert_eq!(resolution.target().unwrap().path, PathBuf::from("changed"));
    assert_eq!(resolution.observe(Some(101)), Some(DeleteCheck::SizeChanged));
    // A removal reported for a file that did not pass its check is ignored.
    resolution.removal(true);
    assert_eq!(resolution.deleted(), 0);

    assert_eq!(resolution.target().unwrap().path, PathBuf::from("gone"));
    assert_eq!(resolution.observe(None), Some(DeleteCheck::Missing));

    assert_eq!(resolution.target().unwrap().path, PathBuf::from("fine"));
    assert_eq!(resolution.observe(Some(100)), Some(DeleteCheck::Proceed));
    // A second look while the removal is pending changes nothing.
    assert_eq!(resolution.observe(Some(1)), None);
    resolution.removal(true);
    assert_eq!(resolution.deleted(), 1);

    // A removal that fails is counted as not deleted.
    assert_eq!(resolution.target().unwrap().path, PathBuf::from("stubborn"));
    assert_eq!(resolution.observe(Some(100)), Some(DeleteCheck::Proceed));
    resolution.removal(false);

    assert_eq!(resolution.phase(), Phase::Reported);
    assert!(resolution.target().is_none());
    assert_eq!(resolution.deleted(), 1);
    let mut totals = Totals::new();
    totals.credit(resolution);
    assert_eq!(totals, Totals { files_deleted: 1, bytes_reclaimed: 100 });
}

#[test]
fn check_before_delete_compares_with_the_recorded_size() {
    let file = FileInfo::new(PathBuf::from("f"), 42);
    assert_eq!(check_before_delete(&file, Some(42)), DeleteCheck::Proceed);
    assert_eq!(check_before_delete(&file, Some(41)), DeleteCheck::SizeChanged);
    assert_eq!(check_before_delete(&file, Some(0)), DeleteCheck::SizeChanged);
    assert_eq!(check_before_delete(&file, None), DeleteCheck::Missing);
}

#[test]
fn manual_selection_proposes_the_marked_members_in_order() {
    let group = group_of(8, &["a", "b", "c", "d"]);
    let mut resolution = GroupResolution::present(&group);
    resolution.pick(Choice::ManualSelect);
    assert_eq!(resolution.select(&[false, true, false, true]), Ok(()));
    assert_eq!(resolution.phase(), Phase::AwaitingConfirmation);
    assert_eq!(proposed(&resolution), vec!["b", "d"]);
    resolution.confirm(true);
    delete_all(&mut resolution);
    assert_eq!(resolution.phase(), Phase::Reported);
    assert_eq!(resolution.deleted(), 2);
}

#[test]
fn members_without_an_answer_are_kept() {
    let group = group_of(8, &["a", "b", "c"]);
    let mut resolution = GroupResolution::present(&group);
    resolution.pick(Choice::ManualSelect);
    // Two answers for three members: the third is kept, so this is no refusal.
    assert_eq!(resolution.select(&[true, true]), Ok(()));
    assert_eq!(proposed(&resolution), vec!["a", "b"]);

    // Answers beyond the last member are ignored.
    let mut resolution = GroupResolution::present(&group);
    resolution.pick(Choice::ManualSelect);
    assert_eq!(resolution.select(&[false, false, true, true, true]), Ok(()));
    assert_eq!(proposed(&resolution), vec!["c"]);
}

#[test]
fn selecting_nothing_aborts_without_refusal() {
    let group = group_of(8, &["a", "b"]);
    let mut resolution = GroupResolution::present(&group);
    resolution.pick(Choice::ManualSelect);
    assert_eq!(resolution.select(&[false, false]), Ok(()));
    assert_eq!(resolution.phase(), Phase::Aborted);
    assert!(resolution.proposal().is_empty());
}

#[test]
fn declining_the_confirmation_aborts_with_no_effect() {
    let group = group_of(8, &["a", "b", "c"]);
    let mut resolution = GroupResolution::present(&group);
    resolution.pick(Choice::KeepFirst);
    resolution.confirm(false);
    assert_eq!(resolution.phase(), Phase::Aborted);
    assert!(resolution.proposal().is_empty());
    assert!(resolution.target().is_none());
    assert_eq!(resolution.observe(Some(8)), None);
    assert_eq!(resolution.deleted(), 0);
}

#[test]
fn skipping_changes_nothing_and_is_final() {
    let group = group_of(8, &["a", "b"]);
    let mut resolution = GroupResolution::present(&group);
    resolution.pick(Choice::Skip);
    assert_eq!(resolution.phase(), Phase::Skipped);
    assert!(resolution.is_finished());
    resolution.pick(Choice::KeepFirst);
    assert_eq!(resolution.select(&[true, false]), Ok(()));
    resolution.confirm(true);
    resolution.removal(true);
    assert_eq!(resolution.phase(), Phase::Skipped);
    assert_eq!(resolution.deleted(), 0);
}

#[test]
fn events_out_of_turn_are_ignored() {
    let group = group_of(8, &["a", "b", "c"]);
    let mut resolution = GroupResolution::present(&group);
    // Nothing but a choice moves a group that was just shown.
    assert_eq!(resolution.select(&[true, true, true]), Ok(()));
    resolution.confirm(true);
    assert_eq!(resolution.observe(Some(8)), None);
    resolution.removal(true);
    assert_eq!(resolution.phase(), Phase::Presented);
    assert!(!resolution.is_finished());

    resolution.pick(Choice::KeepFirst);
    // While confirmation is awaited, another choice or selection changes nothing.
    resolution.pick(Choice::Skip);
    assert_eq!(resolution.select(&[true, false, false]), Ok(()));
    assert_eq!(resolution.phase(), Phase::AwaitingConfirmation);
    assert_eq!(proposed(&resolution), vec!["b", "c"]);

    // Once reported, the count stays.
    resolution.confirm(true);
    delete_all(&mut resolution);
    assert_eq!(resolution.phase(), Phase::Reported);
    resolution.removal(true);
    resolution.confirm(false);
    assert_eq!(resolution.phase(), Phase::Reported);
    assert_eq!(resolution.deleted(), 2);
}

#[test]
fn keep_first_on_a_group_without_others_proposes_nothing() {
    for names in [&[][..], &["only"][..]] {
        let group = group_of(8, names);
        let mut resolution = GroupResolution::present(&group);
        resolution.pick(Choice::KeepFirst);
        assert_eq!(resolution.phase(), Phase::Aborted);
        assert!(resolution.proposal().is_empty());
    }
    // Marking the only member is marking every member.
    let group = group_of(8, &["only"]);
    let mut resolution = GroupResolution::present(&group);
    resolution.pick(Choice::ManualSelect);
    assert_eq!(resolution.select(&[true]), Err(NothingKept));
}

#[test]
fn totals_add_up_over_groups_and_stop_at_their_maximum() {
    let small = group_of(10, &["a", "b", "c"]);
    let huge = group_of(u64::MAX / 2 + 1, &["x", "y", "z"]);
    let mut totals = Totals::new();
    assert_eq!(totals, Totals { files_deleted: 0, bytes_reclaimed: 0 });

    let mut resolution = GroupResolution::present(&small);
    resolution.pick(Choice::KeepFirst);
    resolution.confirm(true);
    delete_all(&mut resolution);
    totals.credit(resolution);
    assert_eq!(totals, Totals { files_deleted: 2, bytes_reclaimed: 20 });

    let mut resolution = GroupResolution::present(&small);
    resolution.pick(Choice::ManualSelect);
    resolution.select(&[false, false, true]).unwrap();
    resolution.confirm(true);
    delete_all(&mut resolution);
    totals.credit(resolution);
    assert_eq!(totals, Totals { files_deleted: 3, bytes_reclaimed: 30 });

    let mut resolution = GroupResolution::present(&huge);
    resolution.pick(Choice::KeepFirst);
    resolution.confirm(true);
    delete_all(&mut resolution);
    totals.credit(resolution);
    assert_eq!(totals, Totals { files_deleted: 5, bytes_reclaimed: u64::MAX });
}
