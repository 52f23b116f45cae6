//! One repository: its working tree, its history, its branches and its
//! remotes, and the operations that touch more than one of them.

use crate::branch::{current_of, has_local, switched, BranchView, Branches};
use crate::diff::{change_views, changes_of, changes_since_head, lemma_changes_relative};
use crate::error::CoreError;
use crate::history::{
    newest_first, page, CommitRecord, CommitView, History, LogEntry, LogEntryView,
};
use crate::text::{first_line, holds, is_blank, text_is_blank, trim_text, trimmed, views};
use crate::worktree::{
    apply, has_staged, lemma_nothing_staged, states, Move, PathState, WorkTree,
};
use vstd::prelude::*;
use vstd::string::*;

verus! {

/// One repository.
#[derive(Clone, Debug)]
pub struct Repository {
    pub tree: WorkTree,
    pub history: History,
    pub branches: Branches,
    /// The URLs of the configured remotes, in the order of the configuration.
    pub remotes: Vec<String>,
    /// Who commits, if that is configured.
    pub identity: Option<String>,
}

/// The mathematical model of a [`Repository`].
pub struct RepositoryView {
    pub tree: Seq<PathState>,
    pub history: Seq<CommitView>,
    pub branches: Seq<BranchView>,
    pub remotes: Seq<Seq<char>>,
    pub identity: Option<Seq<char>>,
}

impl View for Repository {
    type V = RepositoryView;

    open spec fn view(&self) -> RepositoryView {
        RepositoryView {
            tree: self.tree@,
            history: self.history@,
            branches: self.branches@,
            remotes: views(self.remotes@),
            identity: match self.identity {
                Some(who) => Some(who@),
                None => None,
            },
        }
    }
}

/// The identifiers of the parents of the next commit: the most recent
/// commit, if there is one.
pub open spec fn next_parents(history: Seq<CommitView>) -> Seq<Seq<char>> {
    if history.len() > 0 {
        seq![history.last().entry.sha]
    } else {
        Seq::empty()
    }
}

/// The error with which a commit is refused, if it is: a blank message
/// first, then an index without staged changes, then a missing identity.
pub open spec fn commit_refusal(r: RepositoryView, message: Seq<char>) -> Option<CoreError> {
    if is_blank(message) {
        Some(CoreError::EmptyMessage)
    } else if !has_staged(r.tree) {
        Some(CoreError::NothingStaged)
    } else if r.identity is None {
        Some(CoreError::GitError)
    } else {
        None
    }
}

/// The repository after a commit that was not refused: the index becomes
/// the last commit of every path, and the history gains a commit with the
/// trimmed message, the configured identity as author, the most recent
/// commit as parent, and the staged changes.
pub open spec fn committed(r: RepositoryView, message: Seq<char>, sha: Seq<char>, timestamp: i64)
    -> RepositoryView {
    RepositoryView {
        tree: apply(r.tree, Move::Commit, None),
        history: r.history.push(
            CommitView {
                entry: LogEntryView {
                    sha,
                    author: r.identity->0,
                    timestamp,
                    message: trimmed(message),
                    parents: next_parents(r.history),
                },
                changes: changes_since_head(r.tree, true),
            },
        ),
        ..r
    }
}

/// After a commit the log begins with it: a page of one entry holds the
/// new commit, whose subject is the first line of the trimmed message, and
/// nothing is staged any more.
pub proof fn lemma_commit_heads_the_log(
    r: RepositoryView,
    message: Seq<char>,
    sha: Seq<char>,
    timestamp: i64,
)
    requires
        commit_refusal(r, message) is None,
    ensures
        page(newest_first(committed(r, message, sha, timestamp).history), 1) == seq![
            LogEntryView {
                sha,
                author: r.identity->0,
                timestamp,
                message: trimmed(message),
                parents: next_parents(r.history),
            },
        ],
        page(newest_first(committed(r, message, sha, timestamp).history), 1)[0].subject()
            == first_line(trimmed(message)),
        !has_staged(committed(r, message, sha, timestamp).tree),
{
    let after = committed(r, message, sha, timestamp);
    let log = newest_first(after.history);
    assert(log[0] == after.history[after.history.len() - 1].entry);
    assert(page(log, 1) =~= seq![log[0]]);
    lemma_nothing_staged(r.tree);
}

/// Whether uncommitted changes stand in the way of a checkout: a path that
/// differs between the two branches differs from the last commit, in the
/// index or in the working directory.
pub open spec fn blocks_checkout(tree: Seq<PathState>, differing: Seq<Seq<char>>) -> bool {
    exists|i: int| 0 <= i < tree.len() && (#[trigger] tree[i]).dirty() && differing.contains(tree[i].path)
}

/// Tells whether uncommitted changes stand in the way of a checkout, given
/// the paths that differ between the checked-out branch and the other one.
pub fn checkout_blocked(tree: &WorkTree, differing: &Vec<String>) -> (r: bool)
    ensures
        r == blocks_checkout(tree@, views(differing@)),
{
    let entries = tree.entries();
    let n = entries.len();
    let mut i: usize = 0;
    while i < n
        invariant
            n == entries.len(),
            i <= n,
            states(entries@) == tree@,
            forall|k: int|
                0 <= k < i ==> !((#[trigger] tree@[k]).dirty() && views(differing@).contains(
                    tree@[k].path,
                )),
        decreases n - i,
    {
        assert(tree@[i as int] == entries@[i as int]@);
        if entries[i].is_dirty() && holds(differing, &entries[i].path) {
            return true;
        }
        i += 1;
    }
    false
}

impl Repository {
    /// The invariant of the repository: that of its parts.
    pub open spec fn wf(&self) -> bool {
        self.tree.wf() && self.history.wf() && self.branches.wf()
    }

    /// A repository without files, commits, branches, remotes or identity.
    pub fn new() -> (r: Repository)
        ensures
            r.wf(),
            r@ == (RepositoryView {
                tree: Seq::empty(),
                history: Seq::empty(),
                branches: Seq::empty(),
                remotes: Seq::empty(),
                identity: None,
            }),
    {
        let r = Repository {
            tree: WorkTree::new(),
            history: History::new(),
            branches: Branches::new(),
            remotes: Vec::new(),
            identity: None,
        };
        assert(views(r.remotes@) =~= Seq::<Seq<char>>::empty());
        r
    }

    /// Tells whether a commit with this message would be refused, and why:
    /// `EmptyMessage` for a blank message, else `NothingStaged` for an index
    /// without staged changes, else `GitError` for a missing identity.
    pub fn check_commit(&self, message: &String) -> (r: Result<(), CoreError>)
        ensures
            match commit_refusal(self@, message@) {
                Some(e) => r == Err::<(), CoreError>(e),
                None => r is Ok,
            },
    {
        if text_is_blank(message.as_str()) {
            Err(CoreError::EmptyMessage)
        } else if !self.tree.has_staged_changes() {
            Err(CoreError::NothingStaged)
        } else if self.identity.is_none() {
            Err(CoreError::GitError)
        } else {
            Ok(())
        }
    }

    /// Commits what is staged, under the identifier `sha` and the time
    /// `timestamp`. Fails with `EmptyMessage` if the message is blank, with
    /// `NothingStaged` if the index holds no staged change, and with
    /// `GitError` if no identity is configured; the repository then stays as
    /// it was.
    pub fn commit(&mut self, message: &String, sha: &String, timestamp: i64) -> (r: Result<
        (),
        CoreError,
    >)
        requires
            old(self).wf(),
        ensures
            final(self).wf(),
            match commit_refusal(old(self)@, message@) {
                Some(e) => r == Err::<(), CoreError>(e) && final(self)@ == old(self)@,
                None => r is Ok && final(self)@ == committed(
                    old(self)@,
                    message@,
                    sha@,
                    timestamp,
                ),
            },
    {
        match self.check_commit(message) {
            Err(e) => {
                return Err(e);
            },
            Ok(()) => {},
        }
        let author = match &self.identity {
            Some(who) => who.clone(),
            None => {
                return Err(CoreError::GitError);
            },
        };
        let mut parents: Vec<String> = Vec::new();
        match self.history.tip() {
            Some(tip) => {
                parents.push(tip);
            },
            None => {},
        }
        assert(views(parents@) =~= next_parents(self.history@));
        let changes = changes_of(&self.tree, true);
        let commit = CommitRecord {
            entry: LogEntry {
                sha: sha.clone(),
                author,
                timestamp,
                message: trim_text(message.as_str()),
                parents,
            },
            changes,
        };
        proof {
            lemma_changes_relative(self.tree@, true);
            assert(change_views(changes@).len() == changes.len());
        }
        self.tree.commit_index();
        let accepted = self.history.record(commit);
        assert(accepted);
        Ok(())
    }

    /// Checks out the local branch `name`, given the paths that differ
    /// between the checked-out branch and that one. Fails with
    /// `BranchNotFound` if there is no such local branch, and with
    /// `DirtyWorkingTree` if uncommitted changes to one of the differing
    /// paths stand in the way; the repository, and with it the checked-out
    /// branch, then stays as it was. Nothing is discarded to make way.
    pub fn checkout_branch(&mut self, name: &String, differing: &Vec<String>) -> (r: Result<
        (),
        CoreError,
    >)
        requires
            old(self).wf(),
        ensures
            final(self).wf(),
            !has_local(old(self)@.branches, name@) ==> r == Err::<(), CoreError>(
                CoreError::BranchNotFound,
            ) && final(self)@ == old(self)@,
            has_local(old(self)@.branches, name@) && blocks_checkout(
                old(self)@.tree,
                views(differing@),
            ) ==> r == Err::<(), CoreError>(CoreError::DirtyWorkingTree) && final(self)@ == old(
                self,
            )@,
            has_local(old(self)@.branches, name@) && !blocks_checkout(
                old(self)@.tree,
                views(differing@),
            ) ==> r is Ok && final(self)@ == (RepositoryView {
                branches: switched(old(self)@.branches, name@),
                ..old(self)@
            }) && current_of(final(self)@.branches) == Some(name@),
    {
        let blocked = checkout_blocked(&self.tree, differing);
        self.branches.checkout_branch(name, blocked)
    }
}

} // verus!
