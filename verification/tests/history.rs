use gitcore::diff::{Change, ChangeKind};
use gitcore::history::{
    shape_log, walk_length, CommitRecord, GitLogResponse, History, LogEntry, DEFAULT_LOG_LIMIT,
};

fn s(text: &str) -> String {
    text.to_string()
}

fn entry(sha: &str, message: &str, parents: Vec<&str>) -> LogEntry {
    LogEntry {
        sha: s(sha),
        author: s("ann"),
        timestamp: 1_700_000_000,
        message: s(message),
        parents: parents.iter().map(|p| s(p)).collect(),
    }
}

fn walk(n: usize) -> Vec<LogEntry> {
    (0..n).map(|i| entry(&format!("sha{}", i), &format!("commit {}", i), vec![])).collect()
}

#[test]
fn default_limit_is_fifty() {
    assert_eq!(DEFAULT_LOG_LIMIT, 50);
}

#[test]
fn log_shorter_than_the_limit_is_returned_whole() {
    let w = walk(3);
    let r = shape_log(&w, Some(5));
    assert_eq!(r, GitLogResponse { entries: w.clone(), has_more: false });
}

#[test]
fn log_as_long_as_the_limit_has_no_more() {
    let w = walk(5);
    let r = shape_log(&w, Some(5));
    assert_eq!(r.entries, w);
    assert!(!r.has_more);
}

#[test]
fn log_longer_than_the_limit_is_cut_and_has_more() {
    let w = walk(7);
    let r = shape_log(&w, Some(5));
    assert_eq!(r.entries, w[..5].to_vec());
    assert!(r.has_more);
}

#[test]
fn log_without_limit_uses_the_default() {
    let w = walk(51);
    let r = shape_log(&w, None);
    assert_eq!(r.entries.len(), 50);
    assert_eq!(r.entries, w[..50].to_vec());
    assert!(r.has_more);
    let r = shape_log(&walk(50), None);
    assert_eq!(r.entries.len(), 50);
    assert!(!r.has_more);
}

#[test]
fn log_with_limit_zero_is_empty() {
    let r = shape_log(&walk(2), Some(0));
    assert!(r.entries.is_empty());
    assert!(r.has_more);
    let r = shape_log(&walk(0), Some(0));
    assert!(r.entries.is_empty());
    assert!(!r.has_more);
}

#[test]
fn log_keeps_the_order_of_the_walk() {
    let w = vec![entry("b", "later", vec!["a"]), entry("c", "same time", vec!["a"]), entry("a", "first", vec![])];
    let r = shape_log(&w, Some(10));
    let shas: Vec<String> = r.entries.iter().map(|e| e.sha.clone()).collect();
    assert_eq!(shas, vec![s("b"), s("c"), s("a")]);
}

#[test]
fn subject_is_the_first_line_of_the_message() {
    assert_eq!(entry("a", "add a", vec![]).subject(), s("add a"));
    assert_eq!(entry("a", "add a\n\nlonger text\n", vec![]).subject(), s("add a"));
    assert_eq!(entry("a", "", vec![]).subject(), s(""));
    assert_eq!(entry("a", "\nbody", vec![]).subject(), s(""));
    assert_eq!(entry("a", "fix: ärger\nmore", vec![]).subject(), s("fix: ärger"));
}

#[test]
fn copy_of_an_entry_equals_it() {
    let e = entry("abc", "subject\nbody", vec!["abb", "abd"]);
    assert_eq!(e.copy(), e);
}

fn record(sha: &str, message: &str, parents: Vec<&str>) -> CommitRecord {
    CommitRecord { entry: entry(sha, message, parents), changes: vec![] }
}

#[test]
fn history_log_is_most_recent_first() {
    let mut h = History::new();
    assert_eq!(h.len(), 0);
    assert_eq!(h.tip(), None);
    assert!(h.record(record("c1", "one", vec![])));
    assert!(h.record(record("c2", "two", vec!["c1"])));
    assert!(h.record(record("c3", "three", vec!["c2"])));
    assert_eq!(h.len(), 3);
    assert_eq!(h.tip(), Some(s("c3")));
    let r = h.get_log(Some(2));
    assert_eq!(r.entries, vec![entry("c3", "three", vec!["c2"]), entry("c2", "two", vec!["c1"])]);
    assert!(r.has_more);
    let r = h.get_log(Some(3));
    assert_eq!(r.entries.len(), 3);
    assert_eq!(r.entries[2], entry("c1", "one", vec![]));
    assert!(!r.has_more);
    let r = h.get_log(None);
    assert_eq!(r.entries.len(), 3);
    assert!(!r.has_more);
    let r = h.get_log(Some(0));
    assert!(r.entries.is_empty());
    assert!(r.has_more);
}

#[test]
fn history_log_without_limit_returns_fifty_of_more() {
    let mut h = History::new();
    for i in 0..60 {
        assert!(h.record(record(&format!("c{}", i), "m", vec![])));
    }
    let r = h.get_log(None);
    assert_eq!(r.entries.len(), 50);
    assert_eq!(r.entries[0].sha, s("c59"));
    assert_eq!(r.entries[49].sha, s("c10"));
    assert!(r.has_more);
}

#[test]
fn empty_history_has_an_empty_log() {
    let r = History::new().get_log(Some(1));
    assert!(r.entries.is_empty());
    assert!(!r.has_more);
}

#[test]
fn find_returns_the_most_recent_commit_of_that_identifier() {
    let mut h = History::new();
    assert!(h.record(record("c1", "one", vec![])));
    assert!(h.record(record("c2", "two", vec![])));
    assert!(h.record(record("c1", "one again", vec![])));
    assert_eq!(h.find(&s("c1")), Some(2));
    assert_eq!(h.find(&s("c2")), Some(1));
    assert_eq!(h.find(&s("c3")), None);
    assert_eq!(h.commits()[2].entry.message, s("one again"));
}

#[test]
fn record_refuses_a_change_with_a_path_that_is_not_relative() {
    let mut h = History::new();
    let bad = CommitRecord {
        entry: entry("c1", "one", vec![]),
        changes: vec![
            Change { path: s("ok"), kind: ChangeKind::Added, old_ref: None, new_ref: Some(1) },
            Change { path: s("/abs"), kind: ChangeKind::Added, old_ref: None, new_ref: Some(1) },
        ],
    };
    assert!(!h.record(bad));
    assert_eq!(h.len(), 0);
}

#[test]
fn page_needs_one_entry_more_than_the_limit() {
    assert_eq!(walk_length(Some(0)), 1);
    assert_eq!(walk_length(Some(10)), 11);
    assert_eq!(walk_length(None), 51);
    assert_eq!(walk_length(Some(usize::MAX - 1)), usize::MAX);
    assert_eq!(walk_length(Some(usize::MAX)), usize::MAX);
}
