use gitcore::error::CoreError;
use gitcore::worktree::{is_relative, Category, TrackedPath, WorkTree};

fn s(text: &str) -> String {
    text.to_string()
}

fn entry(path: &str, head: Option<u64>, index: Option<u64>, work: Option<u64>) -> TrackedPath {
    TrackedPath { path: s(path), head, index, work }
}

fn tree_of(entries: Vec<TrackedPath>) -> WorkTree {
    let mut tree = WorkTree::new();
    for e in entries {
        assert!(tree.record(e));
    }
    tree
}

#[test]
fn empty_tree_has_empty_status() {
    let tree = WorkTree::new();
    let status = tree.status();
    assert!(status.untracked.is_empty());
    assert!(status.modified.is_empty());
    assert!(status.staged.is_empty());
    assert!(status.deleted.is_empty());
    assert!(!tree.has_staged_changes());
}

#[test]
fn status_sorts_paths_into_their_categories() {
    let tree = tree_of(vec![
        entry("new.txt", None, None, Some(1)),
        entry("edited.txt", Some(2), Some(2), Some(3)),
        entry("added.txt", None, Some(4), Some(4)),
        entry("gone.txt", Some(5), Some(5), None),
        entry("clean.txt", Some(6), Some(6), Some(6)),
        entry("both.txt", Some(7), Some(8), Some(9)),
        entry("staged_removal.txt", Some(10), None, None),
    ]);
    let status = tree.status();
    assert_eq!(status.untracked, vec![s("new.txt")]);
    assert_eq!(status.modified, vec![s("edited.txt"), s("both.txt")]);
    assert_eq!(status.staged, vec![s("added.txt"), s("both.txt"), s("staged_removal.txt")]);
    assert_eq!(status.deleted, vec![s("gone.txt")]);
    assert!(tree.has_staged_changes());
}

#[test]
fn staged_removal_with_a_new_file_of_the_same_name_is_staged_and_untracked() {
    let tree = tree_of(vec![entry("a", Some(1), None, Some(2))]);
    let status = tree.status();
    assert_eq!(status.untracked, vec![s("a")]);
    assert_eq!(status.staged, vec![s("a")]);
    assert!(status.modified.is_empty());
    assert!(status.deleted.is_empty());
}

#[test]
fn categories_of_a_single_entry() {
    let e = entry("x", Some(1), Some(2), Some(3));
    assert!(e.is_in(Category::Staged));
    assert!(e.is_in(Category::Modified));
    assert!(!e.is_in(Category::Untracked));
    assert!(!e.is_in(Category::Deleted));
    assert!(e.is_dirty());
    assert!(e.is_present());
    let clean = entry("y", Some(1), Some(1), Some(1));
    assert!(!clean.is_dirty());
    let nothing = entry("z", None, None, None);
    assert!(!nothing.is_present());
}

#[test]
fn stage_moves_work_into_index() {
    let mut tree = tree_of(vec![entry("a.txt", Some(1), Some(1), Some(2)), entry("b.txt", None, None, Some(3))]);
    assert_eq!(tree.stage(&s("a.txt")), Ok(()));
    assert_eq!(
        tree.entries(),
        &vec![entry("a.txt", Some(1), Some(2), Some(2)), entry("b.txt", None, None, Some(3))]
    );
    let status = tree.status();
    assert_eq!(status.staged, vec![s("a.txt")]);
    assert!(status.modified.is_empty());
    assert_eq!(status.untracked, vec![s("b.txt")]);
}

#[test]
fn stage_of_a_deleted_file_stages_the_removal() {
    let mut tree = tree_of(vec![entry("gone", Some(1), Some(1), None)]);
    assert_eq!(tree.stage(&s("gone")), Ok(()));
    assert_eq!(tree.entries(), &vec![entry("gone", Some(1), None, None)]);
    assert_eq!(tree.status().staged, vec![s("gone")]);
    assert!(tree.status().deleted.is_empty());
}

#[test]
fn stage_of_an_unknown_path_fails_with_path_not_found() {
    let mut tree = tree_of(vec![entry("a.txt", Some(1), Some(1), Some(2))]);
    let before = tree.entries().clone();
    assert_eq!(tree.stage(&s("missing.txt")), Err(CoreError::PathNotFound));
    assert_eq!(tree.entries(), &before);
}

#[test]
fn stage_of_a_path_gone_from_index_and_work_fails() {
    let mut tree = tree_of(vec![entry("a", Some(1), None, None)]);
    assert_eq!(tree.stage(&s("a")), Err(CoreError::PathNotFound));
    assert_eq!(tree.entries(), &vec![entry("a", Some(1), None, None)]);
}

#[test]
fn stage_of_an_absolute_path_fails_with_path_not_found() {
    let mut tree = tree_of(vec![entry("a", None, None, Some(1))]);
    assert_eq!(tree.stage(&s("/a")), Err(CoreError::PathNotFound));
    assert_eq!(tree.stage(&s("")), Err(CoreError::PathNotFound));
}

#[test]
fn stage_of_a_clean_path_succeeds_and_changes_nothing() {
    let mut tree = tree_of(vec![entry("a", Some(1), Some(1), Some(1))]);
    assert_eq!(tree.stage(&s("a")), Ok(()));
    assert_eq!(tree.entries(), &vec![entry("a", Some(1), Some(1), Some(1))]);
}

#[test]
fn stage_drops_a_path_left_without_content() {
    let mut tree = tree_of(vec![entry("a", None, Some(1), None), entry("b", Some(2), Some(2), Some(2))]);
    assert_eq!(tree.stage(&s("a")), Ok(()));
    assert_eq!(tree.entries(), &vec![entry("b", Some(2), Some(2), Some(2))]);
}

#[test]
fn unstage_resets_index_to_head() {
    let mut tree = tree_of(vec![entry("a", Some(1), Some(2), Some(3))]);
    assert_eq!(tree.unstage(&s("a")), Ok(()));
    assert_eq!(tree.entries(), &vec![entry("a", Some(1), Some(1), Some(3))]);
    let status = tree.status();
    assert!(status.staged.is_empty());
    assert_eq!(status.modified, vec![s("a")]);
}

#[test]
fn unstage_of_an_added_file_makes_it_untracked() {
    let mut tree = tree_of(vec![entry("a", None, Some(2), Some(2))]);
    assert_eq!(tree.unstage(&s("a")), Ok(()));
    assert_eq!(tree.entries(), &vec![entry("a", None, None, Some(2))]);
    assert_eq!(tree.status().untracked, vec![s("a")]);
}

#[test]
fn unstage_of_an_untracked_path_fails_with_path_not_found() {
    let mut tree = tree_of(vec![entry("a", None, None, Some(2))]);
    assert_eq!(tree.unstage(&s("a")), Err(CoreError::PathNotFound));
    assert_eq!(tree.unstage(&s("b")), Err(CoreError::PathNotFound));
    assert_eq!(tree.entries(), &vec![entry("a", None, None, Some(2))]);
}

#[test]
fn unstage_drops_a_path_left_without_content() {
    let mut tree = tree_of(vec![entry("a", None, Some(1), None)]);
    assert_eq!(tree.unstage(&s("a")), Ok(()));
    assert!(tree.entries().is_empty());
}

#[test]
fn stage_then_unstage_restores_the_status() {
    let mut tree = tree_of(vec![
        entry("new.txt", None, None, Some(1)),
        entry("edited.txt", Some(2), Some(2), Some(3)),
        entry("gone.txt", Some(5), Some(5), None),
    ]);
    for path in ["new.txt", "edited.txt", "gone.txt"] {
        let entries = tree.entries().clone();
        let status = tree.status();
        assert_eq!(tree.stage(&s(path)), Ok(()));
        assert_eq!(tree.status().staged, vec![s(path)]);
        assert_eq!(tree.unstage(&s(path)), Ok(()));
        assert_eq!(tree.status(), status);
        assert_eq!(tree.entries(), &entries);
    }
}

#[test]
fn stage_then_unstage_loses_an_earlier_staged_change() {
    let mut tree = tree_of(vec![entry("a", Some(1), Some(2), Some(3))]);
    let status = tree.status();
    assert_eq!(status.staged, vec![s("a")]);
    assert_eq!(status.modified, vec![s("a")]);
    assert_eq!(tree.stage(&s("a")), Ok(()));
    assert_eq!(tree.unstage(&s("a")), Ok(()));
    assert_eq!(tree.entries(), &vec![entry("a", Some(1), Some(1), Some(3))]);
    assert!(tree.status().staged.is_empty());
    assert_eq!(tree.status().modified, vec![s("a")]);
}

#[test]
fn stage_all_stages_everything() {
    let mut tree = tree_of(vec![
        entry("new.txt", None, None, Some(1)),
        entry("edited.txt", Some(2), Some(2), Some(3)),
        entry("gone.txt", Some(5), Some(5), None),
        entry("clean.txt", Some(6), Some(6), Some(6)),
        entry("vanishes.txt", None, Some(7), None),
    ]);
    tree.stage_all();
    assert_eq!(
        tree.entries(),
        &vec![
            entry("new.txt", None, Some(1), Some(1)),
            entry("edited.txt", Some(2), Some(3), Some(3)),
            entry("gone.txt", Some(5), None, None),
            entry("clean.txt", Some(6), Some(6), Some(6)),
        ]
    );
    let status = tree.status();
    assert!(status.untracked.is_empty());
    assert!(status.modified.is_empty());
    assert!(status.deleted.is_empty());
    assert_eq!(status.staged, vec![s("new.txt"), s("edited.txt"), s("gone.txt")]);
}

#[test]
fn stage_all_twice_gives_the_status_of_the_first_call() {
    let mut tree = tree_of(vec![
        entry("new.txt", None, None, Some(1)),
        entry("edited.txt", Some(2), Some(4), Some(3)),
        entry("gone.txt", Some(5), Some(5), None),
        entry("vanishes.txt", None, Some(7), None),
    ]);
    tree.stage_all();
    let first = tree.status();
    let entries = tree.entries().clone();
    tree.stage_all();
    assert_eq!(tree.status(), first);
    assert_eq!(tree.entries(), &entries);
}

#[test]
fn stage_all_on_an_empty_tree_does_nothing() {
    let mut tree = WorkTree::new();
    tree.stage_all();
    assert!(tree.entries().is_empty());
}

#[test]
fn revert_restores_the_index_version() {
    let mut tree = tree_of(vec![entry("a", Some(1), Some(2), Some(3)), entry("b", Some(4), Some(4), None)]);
    assert_eq!(tree.revert(&s("a")), Ok(()));
    assert_eq!(tree.revert(&s("b")), Ok(()));
    assert_eq!(
        tree.entries(),
        &vec![entry("a", Some(1), Some(2), Some(2)), entry("b", Some(4), Some(4), Some(4))]
    );
    assert_eq!(tree.status().staged, vec![s("a")]);
    assert!(tree.status().modified.is_empty());
    assert!(tree.status().deleted.is_empty());
}

#[test]
fn revert_of_an_untracked_file_removes_it() {
    let mut tree = tree_of(vec![entry("scratch", None, None, Some(3))]);
    assert_eq!(tree.revert(&s("scratch")), Ok(()));
    assert!(tree.entries().is_empty());
}

#[test]
fn revert_of_an_unknown_path_fails_with_path_not_found() {
    let mut tree = tree_of(vec![entry("a", Some(1), None, None)]);
    assert_eq!(tree.revert(&s("b")), Err(CoreError::PathNotFound));
    assert_eq!(tree.revert(&s("a")), Err(CoreError::PathNotFound));
    assert_eq!(tree.entries(), &vec![entry("a", Some(1), None, None)]);
}

#[test]
fn revert_all_discards_every_unstaged_change() {
    let mut tree = tree_of(vec![
        entry("new.txt", None, None, Some(1)),
        entry("edited.txt", Some(2), Some(4), Some(3)),
        entry("gone.txt", Some(5), Some(5), None),
        entry("added.txt", None, Some(8), Some(9)),
    ]);
    tree.revert_all();
    assert_eq!(
        tree.entries(),
        &vec![
            entry("edited.txt", Some(2), Some(4), Some(4)),
            entry("gone.txt", Some(5), Some(5), Some(5)),
            entry("added.txt", None, Some(8), Some(8)),
        ]
    );
    let status = tree.status();
    assert!(status.untracked.is_empty());
    assert!(status.modified.is_empty());
    assert!(status.deleted.is_empty());
    assert_eq!(status.staged, vec![s("edited.txt"), s("added.txt")]);
}

#[test]
fn commit_index_makes_the_index_the_last_commit() {
    let mut tree = tree_of(vec![
        entry("a", Some(1), Some(2), Some(3)),
        entry("b", Some(4), None, None),
        entry("c", None, Some(5), Some(5)),
    ]);
    tree.commit_index();
    assert_eq!(
        tree.entries(),
        &vec![entry("a", Some(2), Some(2), Some(3)), entry("c", Some(5), Some(5), Some(5))]
    );
    assert!(!tree.has_staged_changes());
    assert!(tree.status().staged.is_empty());
    assert_eq!(tree.status().modified, vec![s("a")]);
}

#[test]
fn record_replaces_adds_and_forgets() {
    let mut tree = WorkTree::new();
    assert!(tree.record(entry("a", None, None, Some(1))));
    assert!(tree.record(entry("b", Some(2), Some(2), Some(2))));
    assert!(tree.record(entry("a", Some(3), Some(3), Some(4))));
    assert_eq!(
        tree.entries(),
        &vec![entry("a", Some(3), Some(3), Some(4)), entry("b", Some(2), Some(2), Some(2))]
    );
    assert!(tree.record(entry("a", None, None, None)));
    assert_eq!(tree.entries(), &vec![entry("b", Some(2), Some(2), Some(2))]);
    assert!(tree.record(entry("c", None, None, None)));
    assert_eq!(tree.entries(), &vec![entry("b", Some(2), Some(2), Some(2))]);
}

#[test]
fn record_refuses_a_path_that_is_not_relative() {
    let mut tree = WorkTree::new();
    assert!(!tree.record(entry("/etc/passwd", None, None, Some(1))));
    assert!(!tree.record(entry("", None, None, Some(1))));
    assert!(tree.entries().is_empty());
}

#[test]
fn write_and_remove_file_change_the_working_directory_only() {
    let mut tree = tree_of(vec![entry("a", Some(1), Some(1), Some(1))]);
    assert!(tree.write_file(&s("a"), 2));
    assert!(tree.write_file(&s("b"), 3));
    assert_eq!(
        tree.entries(),
        &vec![entry("a", Some(1), Some(1), Some(2)), entry("b", None, None, Some(3))]
    );
    assert!(tree.remove_file(&s("a")));
    assert!(tree.remove_file(&s("b")));
    assert!(tree.remove_file(&s("never")));
    assert_eq!(tree.entries(), &vec![entry("a", Some(1), Some(1), None)]);
    assert!(!tree.write_file(&s("/abs"), 1));
    assert!(!tree.remove_file(&s("/abs")));
}

#[test]
fn lookup_returns_the_entry_or_an_empty_one() {
    let tree = tree_of(vec![entry("a", Some(1), Some(2), Some(3))]);
    assert_eq!(tree.lookup(&s("a")), entry("a", Some(1), Some(2), Some(3)));
    assert_eq!(tree.lookup(&s("b")), entry("b", None, None, None));
}

#[test]
fn relative_paths() {
    assert!(is_relative(&s("a.txt")));
    assert!(is_relative(&s("dir/a.txt")));
    assert!(is_relative(&s("ä/ö")));
    assert!(!is_relative(&s("/a.txt")));
    assert!(!is_relative(&s("/")));
    assert!(!is_relative(&s("")));
}
