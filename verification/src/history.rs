//! Commit history: log entries, the log as a caller sees it, and the record
//! of the commits that `HEAD` reaches.

use crate::diff::{change_views, Change, ChangeView};
use crate::text::{copy_strings, first_line, first_line_of, views};
use crate::worktree::relative;
use vstd::prelude::*;
use vstd::string::*;

verus! {

/// One commit as the log shows it.
#[derive(Clone, Debug, PartialEq, Eq)]
pub struct LogEntry {
    pub sha: String,
    pub author: String,
    /// Seconds since the epoch.
    pub timestamp: i64,
    pub message: String,
    pub parents: Vec<String>,
}

/// The mathematical model of a [`LogEntry`].
pub struct LogEntryView {
    pub sha: Seq<char>,
    pub author: Seq<char>,
    pub timestamp: i64,
    pub message: Seq<char>,
    pub parents: Seq<Seq<char>>,
}

impl View for LogEntry {
    type V = LogEntryView;

    open spec fn view(&self) -> LogEntryView {
        LogEntryView {
            sha: self.sha@,
            author: self.author@,
            timestamp: self.timestamp,
            message: self.message@,
            parents: views(self.parents@),
        }
    }
}

impl LogEntryView {
    /// The subject of the commit: the first line of its message.
    pub open spec fn subject(self) -> Seq<char> {
        first_line(self.message)
    }
}

impl LogEntry {
    /// Returns the subject of the commit: the first line of its message.
    pub fn subject(&self) -> (s: String)
        ensures
            s@ == self@.subject(),
    {
        first_line_of(self.message.as_str())
    }

    /// Returns a copy of this entry.
    pub fn copy(&self) -> (e: LogEntry)
        ensures
            e@ == self@,
    {
        LogEntry {
            sha: self.sha.clone(),
            author: self.author.clone(),
            timestamp: self.timestamp,
            message: self.message.clone(),
            parents: copy_strings(&self.parents),
        }
    }
}

/// The model of every entry of a sequence, in order.
pub open spec fn log_views(v: Seq<LogEntry>) -> Seq<LogEntryView> {
    Seq::new(v.len(), |i: int| v[i]@)
}

/// A page of the log: the most recent commits first, and whether older
/// commits were left out.
#[derive(Clone, Debug, PartialEq, Eq)]
pub struct GitLogResponse {
    pub entries: Vec<LogEntry>,
    pub has_more: bool,
}

/// The number of log entries returned when the caller names no limit.
pub const DEFAULT_LOG_LIMIT: usize = 50;

/// The limit that applies to a request.
pub open spec fn limit_of(limit: Option<usize>) -> nat {
    match limit {
        Some(n) => n as nat,
        None => DEFAULT_LOG_LIMIT as nat,
    }
}

/// The first `limit` entries of a walk, or all of it if it is shorter.
pub open spec fn page(walk: Seq<LogEntryView>, limit: nat) -> Seq<LogEntryView> {
    if walk.len() <= limit {
        walk
    } else {
        walk.take(limit as int)
    }
}

/// How many entries of the history a page needs to see: one more than the
/// limit, so that it can tell whether there are more, as far as a number of
/// the machine goes.
pub fn walk_length(limit: Option<usize>) -> (n: usize)
    ensures
        n == if limit_of(limit) < usize::MAX {
            limit_of(limit) + 1
        } else {
            usize::MAX as nat
        },
{
    let max = match limit {
        Some(n) => n,
        None => DEFAULT_LOG_LIMIT,
    };
    if max < usize::MAX {
        max + 1
    } else {
        usize::MAX
    }
}

/// Cuts a history walk down to a page. The walk lists commits most recent
/// first, in the order in which the history was walked; the page keeps that
/// order.
pub fn shape_log(walk: &Vec<LogEntry>, limit: Option<usize>) -> (r: GitLogResponse)
    ensures
        log_views(r.entries@) == page(log_views(walk@), limit_of(limit)),
        r.has_more == (walk.len() > limit_of(limit)),
{
    let max = match limit {
        Some(n) => n,
        None => DEFAULT_LOG_LIMIT,
    };
    let n = if walk.len() <= max {
        walk.len()
    } else {
        max
    };
    let mut entries: Vec<LogEntry> = Vec::new();
    let mut i: usize = 0;
    while i < n
        invariant
            n <= walk.len(),
            i <= n,
            entries.len() == i,
            forall|k: int| 0 <= k < i ==> (#[trigger] entries@[k])@ == walk@[k]@,
        decreases n - i,
    {
        entries.push(walk[i].copy());
        i += 1;
    }
    assert(log_views(entries@) =~= page(log_views(walk@), limit_of(limit)));
    GitLogResponse { entries, has_more: walk.len() > max }
}

/// One commit with the changes that it made to its first parent.
#[derive(Clone, Debug, PartialEq, Eq)]
pub struct CommitRecord {
    pub entry: LogEntry,
    pub changes: Vec<Change>,
}

/// The mathematical model of a [`CommitRecord`].
pub struct CommitView {
    pub entry: LogEntryView,
    pub changes: Seq<ChangeView>,
}

impl View for CommitRecord {
    type V = CommitView;

    open spec fn view(&self) -> CommitView {
        CommitView { entry: self.entry@, changes: change_views(self.changes@) }
    }
}

impl CommitView {
    /// The invariant of a commit: the paths of its changes are relative.
    pub open spec fn wf(self) -> bool {
        forall|i: int| 0 <= i < self.changes.len() ==> relative((#[trigger] self.changes[i]).path)
    }
}

/// The model of every commit of a sequence, in order.
pub open spec fn commit_views(v: Seq<CommitRecord>) -> Seq<CommitView> {
    Seq::new(v.len(), |i: int| v[i]@)
}

/// The log entries of a history, most recent first.
pub open spec fn newest_first(h: Seq<CommitView>) -> Seq<LogEntryView> {
    Seq::new(h.len(), |k: int| h[h.len() - 1 - k].entry)
}

/// Whether the history has a commit with the identifier `sha`.
pub open spec fn has_commit(h: Seq<CommitView>, sha: Seq<char>) -> bool {
    exists|i: int| 0 <= i < h.len() && (#[trigger] h[i]).entry.sha == sha
}

/// The place of the most recent commit with the identifier `sha`.
pub open spec fn commit_place(h: Seq<CommitView>, sha: Seq<char>) -> int
    decreases h.len(),
{
    if h.len() == 0 {
        -1
    } else if h.last().entry.sha == sha {
        h.len() - 1
    } else {
        commit_place(h.drop_last(), sha)
    }
}

/// `commit_place` finds a commit exactly when the history has one.
pub proof fn lemma_commit_place(h: Seq<CommitView>, sha: Seq<char>)
    ensures
        has_commit(h, sha) <==> commit_place(h, sha) >= 0,
        -1 <= commit_place(h, sha) < h.len(),
        commit_place(h, sha) >= 0 ==> h[commit_place(h, sha)].entry.sha == sha,
    decreases h.len(),
{
    if h.len() > 0 {
        let t = h.drop_last();
        lemma_commit_place(t, sha);
        if h.last().entry.sha == sha {
            assert(h[h.len() - 1].entry.sha == sha);
        } else {
            if has_commit(h, sha) {
                let i = choose|i: int| 0 <= i < h.len() && (#[trigger] h[i]).entry.sha == sha;
                assert(t[i].entry.sha == sha);
            }
            if commit_place(t, sha) >= 0 {
                assert(h[commit_place(t, sha)] == t[commit_place(t, sha)]);
            }
        }
    }
}

/// The commits that `HEAD` reaches, oldest first.
#[derive(Clone, Debug)]
pub struct History {
    commits: Vec<CommitRecord>,
}

impl View for History {
    type V = Seq<CommitView>;

    closed spec fn view(&self) -> Seq<CommitView> {
        commit_views(self.commits@)
    }
}

impl History {
    /// The invariant of the history: every commit is well formed.
    pub open spec fn wf(&self) -> bool {
        forall|i: int| 0 <= i < self@.len() ==> (#[trigger] self@[i]).wf()
    }

    /// A history without commits.
    pub fn new() -> (h: History)
        ensures
            h@ == Seq::<CommitView>::empty(),
            h.wf(),
    {
        let h = History { commits: Vec::new() };
        assert(h@ =~= Seq::<CommitView>::empty());
        h
    }

    /// The number of commits.
    pub fn len(&self) -> (n: usize)
        ensures
            n == self@.len(),
    {
        self.commits.len()
    }

    /// The commits, oldest first.
    pub fn commits(&self) -> (v: &Vec<CommitRecord>)
        ensures
            commit_views(v@) == self@,
    {
        &self.commits
    }

    /// Adds a commit as the most recent one. A commit with a change whose
    /// path is not relative is refused, and the history stays as it was.
    pub fn record(&mut self, commit: CommitRecord) -> (accepted: bool)
        requires
            old(self).wf(),
        ensures
            final(self).wf(),
            accepted == commit@.wf(),
            accepted ==> final(self)@ == old(self)@.push(commit@),
            !accepted ==> final(self)@ == old(self)@,
    {
        let n = commit.changes.len();
        let mut i: usize = 0;
        while i < n
            invariant
                n == commit.changes.len(),
                i <= n,
                self.wf(),
                self@ == old(self)@,
                forall|k: int| 0 <= k < i ==> relative((#[trigger] commit@.changes[k]).path),
            decreases n - i,
        {
            if !crate::worktree::is_relative(&commit.changes[i].path) {
                assert(!relative(commit@.changes[i as int].path));
                return false;
            }
            i += 1;
        }
        let ghost before = self@;
        self.commits.push(commit);
        assert(self@ =~= before.push(commit@));
        true
    }

    /// The identifier of the most recent commit, if there is one.
    pub fn tip(&self) -> (sha: Option<String>)
        ensures
            match sha {
                Some(s) => self@.len() > 0 && s@ == self@.last().entry.sha,
                None => self@.len() == 0,
            },
    {
        let n = self.commits.len();
        if n == 0 {
            None
        } else {
            Some(self.commits[n - 1].entry.sha.clone())
        }
    }

    /// Finds the most recent commit with the identifier `sha`.
    pub fn find(&self, sha: &String) -> (place: Option<usize>)
        ensures
            match place {
                Some(i) => i < self@.len() && i as int == commit_place(self@, sha@),
                None => commit_place(self@, sha@) == -1,
            },
            place is Some <==> has_commit(self@, sha@),
    {
        let mut i: usize = self.commits.len();
        proof {
            lemma_commit_place(self@, sha@);
            assert(self@.take(i as int) =~= self@);
        }
        while i > 0
            invariant
                i <= self.commits.len(),
                commit_place(self@, sha@) == commit_place(self@.take(i as int), sha@),
            decreases i,
        {
            let ghost prefix = self@.take(i as int);
            assert(prefix.last() == self@[i - 1]);
            assert(prefix.drop_last() =~= self@.take(i - 1));
            if self.commits[i - 1].entry.sha == *sha {
                return Some(i - 1);
            }
            i -= 1;
        }
        None
    }

    /// Returns a page of the log: up to `limit` commits, or up to
    /// `DEFAULT_LOG_LIMIT` if no limit is given, most recent first, and
    /// whether the history holds more.
    pub fn get_log(&self, limit: Option<usize>) -> (r: GitLogResponse)
        ensures
            log_views(r.entries@) == page(newest_first(self@), limit_of(limit)),
            r.has_more == (self@.len() > limit_of(limit)),
    {
        let max = match limit {
            Some(n) => n,
            None => DEFAULT_LOG_LIMIT,
        };
        let total = self.commits.len();
        let n = if total <= max {
            total
        } else {
            max
        };
        let mut entries: Vec<LogEntry> = Vec::new();
        let mut i: usize = 0;
        while i < n
            invariant
                total == self.commits.len(),
                n <= total,
                i <= n,
                entries.len() == i,
                forall|k: int| 0 <= k < i ==> (#[trigger] entries@[k])@ == self@[total - 1 - k].entry,
            decreases n - i,
        {
            entries.push(self.commits[total - 1 - i].entry.copy());
            i += 1;
        }
        assert(log_views(entries@) =~= page(newest_first(self@), limit_of(limit)));
        GitLogResponse { entries, has_more: total > max }
    }
}

} // verus!
