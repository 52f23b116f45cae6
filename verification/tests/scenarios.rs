use gitcore::diff::{get_commit_diff, Change, ChangeKind, DiffBody, DiffSettings, Patch};
use gitcore::error::{CoreError, ErrorKind};
use gitcore::github::{plan_request, Endpoint};
use gitcore::history::LogEntry;
use gitcore::branch::BranchInfo;
use gitcore::registry::{Operation, Registry};
use gitcore::repository::{checkout_blocked, Repository};
use gitcore::sync::{StepOutcome, SyncState, SyncStep};
use gitcore::worktree::TrackedPath;

fn s(text: &str) -> String {
    text.to_string()
}

fn repo_with_identity() -> Repository {
    let mut repo = Repository::new();
    repo.identity = Some(s("Ann <ann@example.com>"));
    repo
}

#[test]
fn new_file_is_staged_committed_and_logged() {
    let mut repo = repo_with_identity();
    assert!(repo.tree.write_file(&s("a.txt"), 1));

    let status = repo.tree.status();
    assert_eq!(status.untracked, vec![s("a.txt")]);
    assert!(status.staged.is_empty());

    assert_eq!(repo.tree.stage(&s("a.txt")), Ok(()));
    let status = repo.tree.status();
    assert_eq!(status.staged, vec![s("a.txt")]);
    assert!(status.untracked.is_empty());

    assert_eq!(repo.commit(&s("add a"), &s("c0ffee"), 1_700_000_000), Ok(()));

    let log = repo.history.get_log(Some(1));
    assert_eq!(log.entries.len(), 1);
    assert_eq!(log.entries[0].subject(), s("add a"));
    assert!(!log.has_more);
    assert_eq!(
        log.entries[0],
        LogEntry {
            sha: s("c0ffee"),
            author: s("Ann <ann@example.com>"),
            timestamp: 1_700_000_000,
            message: s("add a"),
            parents: vec![],
        }
    );

    let status = repo.tree.status();
    assert!(status.untracked.is_empty());
    assert!(status.modified.is_empty());
    assert!(status.staged.is_empty());
    assert!(status.deleted.is_empty());
    assert_eq!(
        repo.tree.entries(),
        &vec![TrackedPath { path: s("a.txt"), head: Some(1), index: Some(1), work: Some(1) }]
    );
}

#[test]
fn second_commit_has_the_first_as_parent() {
    let mut repo = repo_with_identity();
    repo.tree.write_file(&s("a.txt"), 1);
    repo.tree.stage_all();
    assert_eq!(repo.commit(&s("one"), &s("c1"), 10), Ok(()));
    repo.tree.write_file(&s("a.txt"), 2);
    repo.tree.write_file(&s("b.txt"), 3);
    repo.tree.stage_all();
    assert_eq!(repo.commit(&s("  two\n\nbody\n"), &s("c2"), 20), Ok(()));
    let log = repo.history.get_log(None);
    assert_eq!(log.entries.len(), 2);
    assert_eq!(log.entries[0].sha, s("c2"));
    assert_eq!(log.entries[0].parents, vec![s("c1")]);
    assert_eq!(log.entries[0].message, s("two\n\nbody"));
    assert_eq!(log.entries[0].subject(), s("two"));
    assert_eq!(log.entries[1].sha, s("c1"));
    assert_eq!(
        repo.history.commits()[1].changes,
        vec![
            Change { path: s("a.txt"), kind: ChangeKind::Modified, old_ref: Some(1), new_ref: Some(2) },
            Change { path: s("b.txt"), kind: ChangeKind::Added, old_ref: None, new_ref: Some(3) },
        ]
    );
    let patches = vec![Patch { path: s("b.txt"), text: b"@@ -0,0 +1 @@\n+b\n".to_vec() }];
    let diff = get_commit_diff(&repo.history, &s("c2"), &patches, &DiffSettings { max_diff_bytes: 16 }).unwrap();
    assert_eq!(diff.len(), 1);
    assert_eq!(diff[0].sha, s("c2"));
    assert_eq!(diff[0].parents, vec![s("c1")]);
    assert_eq!(diff[0].files.len(), 2);
    assert_eq!(diff[0].files[0].body, DiffBody::Binary);
    assert_eq!(diff[0].files[1].body, DiffBody::TooLarge);
}

#[test]
fn commit_with_a_blank_message_fails_with_empty_message() {
    let mut repo = repo_with_identity();
    repo.tree.write_file(&s("a.txt"), 1);
    repo.tree.stage_all();
    let entries = repo.tree.entries().clone();
    for message in ["", " ", "\n\t \r\n"] {
        assert_eq!(repo.commit(&s(message), &s("c1"), 10), Err(CoreError::EmptyMessage));
    }
    assert_eq!(repo.history.len(), 0);
    assert_eq!(repo.tree.entries(), &entries);
    assert_eq!(CoreError::EmptyMessage.kind(), ErrorKind::InvalidInput);
}

#[test]
fn commit_with_nothing_staged_fails_with_nothing_staged() {
    let mut repo = repo_with_identity();
    assert_eq!(repo.commit(&s("empty"), &s("c1"), 10), Err(CoreError::NothingStaged));
    repo.tree.write_file(&s("a.txt"), 1);
    assert_eq!(repo.commit(&s("untracked only"), &s("c1"), 10), Err(CoreError::NothingStaged));
    assert_eq!(repo.history.len(), 0);
    assert_eq!(repo.tree.status().untracked, vec![s("a.txt")]);
}

#[test]
fn commit_without_an_identity_fails_with_git_error() {
    let mut repo = Repository::new();
    repo.tree.write_file(&s("a.txt"), 1);
    repo.tree.stage_all();
    assert_eq!(repo.commit(&s("add a"), &s("c1"), 10), Err(CoreError::GitError));
    assert_eq!(repo.history.len(), 0);
    assert_eq!(repo.tree.status().staged, vec![s("a.txt")]);
}

#[test]
fn blank_message_is_reported_before_anything_else() {
    let mut repo = Repository::new();
    assert_eq!(repo.commit(&s("  "), &s("c1"), 10), Err(CoreError::EmptyMessage));
    assert_eq!(repo.commit(&s("m"), &s("c1"), 10), Err(CoreError::NothingStaged));
}

#[test]
fn commit_of_a_staged_removal_forgets_the_path() {
    let mut repo = repo_with_identity();
    repo.tree.write_file(&s("a.txt"), 1);
    repo.tree.stage_all();
    repo.commit(&s("add"), &s("c1"), 10).unwrap();
    repo.tree.remove_file(&s("a.txt"));
    assert_eq!(repo.tree.status().deleted, vec![s("a.txt")]);
    repo.tree.stage_all();
    repo.commit(&s("remove"), &s("c2"), 20).unwrap();
    assert!(repo.tree.entries().is_empty());
    assert_eq!(
        repo.history.commits()[1].changes,
        vec![Change { path: s("a.txt"), kind: ChangeKind::Deleted, old_ref: Some(1), new_ref: None }]
    );
}

fn repo_with_branches() -> Repository {
    let mut repo = repo_with_identity();
    assert!(repo.branches.track(BranchInfo { name: s("main"), is_current: true, is_remote: false, upstream: None }));
    assert!(repo.branches.track(BranchInfo { name: s("dev"), is_current: false, is_remote: false, upstream: None }));
    repo
}

#[test]
fn checkout_of_a_missing_branch_fails_with_branch_not_found() {
    let mut repo = repo_with_branches();
    let before = repo.branches.list_branches();
    let r = repo.checkout_branch(&s("does-not-exist"), &Vec::new());
    assert_eq!(r, Err(CoreError::BranchNotFound));
    assert_eq!(repo.branches.current(), Some(s("main")));
    assert_eq!(repo.branches.list_branches(), before);
}

#[test]
fn checkout_switches_when_no_changed_path_differs() {
    let mut repo = repo_with_branches();
    repo.tree.record(TrackedPath { path: s("a"), head: Some(1), index: Some(1), work: Some(2) });
    repo.tree.record(TrackedPath { path: s("b"), head: Some(3), index: Some(3), work: Some(3) });
    assert!(!checkout_blocked(&repo.tree, &vec![s("b"), s("c")]));
    assert_eq!(repo.checkout_branch(&s("dev"), &vec![s("b"), s("c")]), Ok(()));
    assert_eq!(repo.branches.current(), Some(s("dev")));
    assert_eq!(repo.tree.status().modified, vec![s("a")]);
}

#[test]
fn checkout_blocked_by_conflicting_changes_fails_with_dirty_working_tree() {
    let mut repo = repo_with_branches();
    repo.tree.record(TrackedPath { path: s("a"), head: Some(1), index: Some(1), work: Some(2) });
    let entries = repo.tree.entries().clone();
    assert!(checkout_blocked(&repo.tree, &vec![s("x"), s("a")]));
    assert_eq!(repo.checkout_branch(&s("dev"), &vec![s("x"), s("a")]), Err(CoreError::DirtyWorkingTree));
    assert_eq!(repo.branches.current(), Some(s("main")));
    assert_eq!(repo.tree.entries(), &entries);
    assert_eq!(repo.checkout_branch(&s("nope"), &vec![s("a")]), Err(CoreError::BranchNotFound));
}

#[test]
fn staged_change_blocks_a_checkout_too() {
    let mut repo = repo_with_branches();
    repo.tree.record(TrackedPath { path: s("a"), head: Some(1), index: Some(2), work: Some(2) });
    assert!(checkout_blocked(&repo.tree, &vec![s("a")]));
    assert!(!checkout_blocked(&repo.tree, &Vec::new()));
}

#[test]
fn issues_of_a_repository_whose_remote_is_not_on_github_fail_with_not_github() {
    let mut repo = Repository::new();
    repo.remotes.push(s("https://gitlab.com/owner/repo.git"));
    assert_eq!(plan_request(&repo.remotes, Endpoint::Issues, None), Err(CoreError::NotGitHub));
}

#[test]
fn sync_with_a_merge_conflict_in_pull_stops_before_push() {
    let mut registry = Registry::new();
    registry.get_or_create(&s("ws"), &s("/repo"));
    assert_eq!(registry.begin_operation(&s("ws"), Operation::Sync), Ok(true));
    let mut state = SyncState::start();
    let mut attempted = Vec::new();
    while let Some(step) = state.running() {
        attempted.push(step.name().to_string());
        let outcome = match step {
            SyncStep::Fetch => StepOutcome::Done,
            SyncStep::Pull => gitcore::sync::classify_failure(&s(
                "CONFLICT (content): Merge conflict in a.txt\nAutomatic merge failed",
            )),
            SyncStep::Push => panic!("push must not be attempted"),
        };
        state = state.advance(outcome);
    }
    assert!(registry.finish_operation(&s("ws"), Operation::Sync));
    assert_eq!(attempted, vec![s("fetch"), s("pull")]);
    let failure = state.result().unwrap().unwrap_err();
    assert_eq!(failure.step.name(), "pull");
    assert_eq!(failure.error, CoreError::GitError);
    assert!(!registry.entries()[0].writer);
}

#[test]
fn check_commit_tells_why_a_commit_would_be_refused() {
    let mut repo = Repository::new();
    assert_eq!(repo.check_commit(&s(" ")), Err(CoreError::EmptyMessage));
    assert_eq!(repo.check_commit(&s("m")), Err(CoreError::NothingStaged));
    repo.tree.write_file(&s("a"), 1);
    repo.tree.stage_all();
    assert_eq!(repo.check_commit(&s("m")), Err(CoreError::GitError));
    repo.identity = Some(s("ann"));
    assert_eq!(repo.check_commit(&s("m")), Ok(()));
    assert_eq!(repo.check_commit(&s("")), Err(CoreError::EmptyMessage));
    assert_eq!(repo.history.len(), 0);
}
