use find_duplicates::duplicates::DuplicateGroup;
use find_duplicates::interactive::{
    all_but_first, default_selection, deleted_bytes, files_to_delete, group_selected,
    menu_selected, menu_start, review_confirmed, review_selected, valid_indices, Action,
    ReviewStep,
};
use std::path::PathBuf;

fn group(size: u64, count: usize) -> DuplicateGroup {
    DuplicateGroup {
        hash: "h".to_string(),
        size,
        paths: (0..count).map(|i| PathBuf::from(format!("f{}", i))).collect(),
    }
}

#[test]
fn menu_without_groups_quits_at_once() {
    assert_eq!(menu_start(0), Some(Action::Quit));
    assert_eq!(menu_start(1), None);
    assert_eq!(menu_start(25), None);
}

#[test]
fn menu_entries_lead_to_their_actions() {
    assert_eq!(menu_selected(0), None);
    assert_eq!(menu_selected(1), Some(Action::DeleteAllDuplicates));
    assert_eq!(menu_selected(2), Some(Action::Rescan));
    assert_eq!(menu_selected(3), Some(Action::Quit));
    assert_eq!(menu_selected(4), Some(Action::Quit));
    assert_eq!(menu_selected(usize::MAX), Some(Action::Quit));
}

#[test]
fn picking_a_group_leads_to_its_review() {
    assert_eq!(group_selected(0), Action::ReviewGroup(0));
    assert_eq!(group_selected(7), Action::ReviewGroup(7));
}

#[test]
fn default_selection_keeps_the_first_file() {
    assert_eq!(default_selection(0), Vec::<bool>::new());
    assert_eq!(default_selection(1), vec![false]);
    assert_eq!(default_selection(2), vec![false, true]);
    assert_eq!(default_selection(5), vec![false, true, true, true, true]);
}

#[test]
fn selecting_every_file_asks_for_confirmation() {
    assert_eq!(review_selected(vec![0, 1, 2], 3), ReviewStep::ConfirmAll(vec![0, 1, 2]));
    assert_eq!(review_selected(vec![1, 2], 3), ReviewStep::Done(vec![1, 2]));
    assert_eq!(review_selected(vec![], 3), ReviewStep::Done(vec![]));
    assert_eq!(review_selected(vec![], 0), ReviewStep::ConfirmAll(vec![]));
}

#[test]
fn refusing_the_confirmation_deletes_nothing() {
    assert_eq!(review_confirmed(vec![0, 1, 2], true), vec![0, 1, 2]);
    assert_eq!(review_confirmed(vec![0, 1, 2], false), Vec::<usize>::new());
}

#[test]
fn indices_out_of_range_are_passed_over() {
    assert_eq!(valid_indices(&[0, 3, 1, 7, 2, 1], 3), vec![0, 1, 2, 1]);
    assert_eq!(valid_indices(&[5, 6], 3), Vec::<usize>::new());
    assert_eq!(valid_indices(&[], 3), Vec::<usize>::new());
    assert_eq!(valid_indices(&[0], 0), Vec::<usize>::new());
}

#[test]
fn all_but_first_counts_from_one() {
    assert_eq!(all_but_first(0), Vec::<usize>::new());
    assert_eq!(all_but_first(1), Vec::<usize>::new());
    assert_eq!(all_but_first(2), vec![1]);
    assert_eq!(all_but_first(5), vec![1, 2, 3, 4]);
}

#[test]
fn deleted_bytes_counts_the_files_that_are_gone() {
    assert_eq!(deleted_bytes(1000, &[]), 0);
    assert_eq!(deleted_bytes(1000, &[true, true]), 2000);
    assert_eq!(deleted_bytes(1000, &[true, false, true, false, false]), 2000);
    assert_eq!(deleted_bytes(1000, &[false, false]), 0);
    assert_eq!(deleted_bytes(0, &[true, true, true]), 0);
    assert_eq!(deleted_bytes(u64::MAX, &[false, true]), u64::MAX);
}

#[test]
fn files_to_delete_leaves_one_file_of_each_group() {
    assert_eq!(files_to_delete(&[]), 0);
    assert_eq!(files_to_delete(&[group(10, 2)]), 1);
    assert_eq!(files_to_delete(&[group(10, 2), group(20, 5), group(30, 1)]), 5);
}
