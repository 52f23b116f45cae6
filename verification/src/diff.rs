//! The diff engine: which files changed, and the shape in which the diff of
//! each is handed to a caller.
//!
//! The text of a diff comes from the underlying diff algorithm and is taken
//! as it is. The engine decides which paths have a diff and of what kind,
//! cuts each text into hunks, and replaces the hunks by a marker where the
//! text is larger than the configured maximum or holds no hunk.

use crate::error::CoreError;
use crate::history::{commit_place, commit_views, has_commit, History};
use crate::hunks::{concat_all, hunk_starts, hunk_texts, hunks_of, split_hunks, Hunk};
use crate::text::{copy_strings, views};
use crate::worktree::{relative, states, tree_wf, PathState, TrackedPath, WorkTree};
use vstd::prelude::*;
use vstd::string::*;

verus! {

/// What happened to a file.
#[derive(Clone, Copy, Debug, PartialEq, Eq, Structural)]
pub enum ChangeKind {
    Added,
    Modified,
    Deleted,
    Renamed,
}

impl ChangeKind {
    /// The kind that a status letter stands for: `A` and `C` (a copy is a
    /// new file) for an addition, `M` and `T` (a change of type) for a
    /// modification, `D` for a deletion, `R` for a renaming.
    pub open spec fn of_letter(letter: u8) -> Option<ChangeKind> {
        if letter == 0x41 || letter == 0x43 {
            Some(ChangeKind::Added)
        } else if letter == 0x4d || letter == 0x54 {
            Some(ChangeKind::Modified)
        } else if letter == 0x44 {
            Some(ChangeKind::Deleted)
        } else if letter == 0x52 {
            Some(ChangeKind::Renamed)
        } else {
            None
        }
    }

    /// Reads a status letter.
    pub fn from_status_letter(letter: u8) -> (k: Option<ChangeKind>)
        ensures
            k == ChangeKind::of_letter(letter),
    {
        if letter == 0x41 || letter == 0x43 {
            Some(ChangeKind::Added)
        } else if letter == 0x4d || letter == 0x54 {
            Some(ChangeKind::Modified)
        } else if letter == 0x44 {
            Some(ChangeKind::Deleted)
        } else if letter == 0x52 {
            Some(ChangeKind::Renamed)
        } else {
            None
        }
    }
}

/// One changed file: its path, what happened to it, and the content before
/// and after.
#[derive(Clone, Debug, PartialEq, Eq)]
pub struct Change {
    pub path: String,
    pub kind: ChangeKind,
    pub old_ref: Option<u64>,
    pub new_ref: Option<u64>,
}

/// The mathematical model of a [`Change`].
pub struct ChangeView {
    pub path: Seq<char>,
    pub kind: ChangeKind,
    pub old_ref: Option<u64>,
    pub new_ref: Option<u64>,
}

impl View for Change {
    type V = ChangeView;

    open spec fn view(&self) -> ChangeView {
        ChangeView {
            path: self.path@,
            kind: self.kind,
            old_ref: self.old_ref,
            new_ref: self.new_ref,
        }
    }
}

impl Change {
    /// Returns a copy of this change.
    pub fn copy(&self) -> (c: Change)
        ensures
            c@ == self@,
    {
        Change {
            path: self.path.clone(),
            kind: self.kind,
            old_ref: self.old_ref,
            new_ref: self.new_ref,
        }
    }
}

/// The model of every change of a sequence, in order.
pub open spec fn change_views(v: Seq<Change>) -> Seq<ChangeView> {
    Seq::new(v.len(), |i: int| v[i]@)
}

/// The change that leads from the content `old` to the content `new`, if they
/// differ: an addition where there was nothing, a deletion where nothing is
/// left, a modification otherwise.
pub open spec fn change_between(path: Seq<char>, old: Option<u64>, new: Option<u64>) -> Option<
    ChangeView,
> {
    if old == new {
        None
    } else {
        Some(
            ChangeView {
                path,
                kind: if old is None {
                    ChangeKind::Added
                } else if new is None {
                    ChangeKind::Deleted
                } else {
                    ChangeKind::Modified
                },
                old_ref: old,
                new_ref: new,
            },
        )
    }
}

/// The change of one path against the last commit: up to the index if
/// `staged_only`, up to the working directory otherwise.
pub open spec fn change_of(e: PathState, staged_only: bool) -> Option<ChangeView> {
    change_between(
        e.path,
        e.head,
        if staged_only {
            e.index
        } else {
            e.work
        },
    )
}

/// The changes of a tree against the last commit, in the order of the tree.
pub open spec fn changes_since_head(s: Seq<PathState>, staged_only: bool) -> Seq<ChangeView>
    decreases s.len(),
{
    if s.len() == 0 {
        Seq::empty()
    } else {
        match change_of(s.last(), staged_only) {
            Some(c) => changes_since_head(s.drop_last(), staged_only).push(c),
            None => changes_since_head(s.drop_last(), staged_only),
        }
    }
}

/// The paths of the changes of a well-formed tree are relative.
pub proof fn lemma_changes_relative(s: Seq<PathState>, staged_only: bool)
    requires
        tree_wf(s),
    ensures
        forall|i: int|
            0 <= i < changes_since_head(s, staged_only).len() ==> relative(
                (#[trigger] changes_since_head(s, staged_only)[i]).path,
            ),
    decreases s.len(),
{
    if s.len() > 0 {
        let t = s.drop_last();
        crate::worktree::lemma_prefix_wf(s, s.len() - 1);
        assert(t =~= s.take(s.len() - 1));
        lemma_changes_relative(t, staged_only);
        assert(relative(s[s.len() - 1].path));
        let a = changes_since_head(s, staged_only);
        let b = changes_since_head(t, staged_only);
        assert forall|i: int| 0 <= i < a.len() implies relative((#[trigger] a[i]).path) by {
            if i < b.len() {
                assert(a[i] == b[i]);
            }
        }
    }
}

fn change_entry(e: &TrackedPath, staged_only: bool) -> (c: Option<Change>)
    ensures
        match c {
            Some(c) => change_of(e@, staged_only) == Some(c@),
            None => change_of(e@, staged_only) is None,
        },
{
    let old = e.head;
    let new = if staged_only {
        e.index
    } else {
        e.work
    };
    match (old, new) {
        (None, None) => None,
        (None, Some(_)) => Some(
            Change { path: e.path.clone(), kind: ChangeKind::Added, old_ref: old, new_ref: new },
        ),
        (Some(_), None) => Some(
            Change { path: e.path.clone(), kind: ChangeKind::Deleted, old_ref: old, new_ref: new },
        ),
        (Some(a), Some(b)) => {
            if a == b {
                None
            } else {
                Some(
                    Change {
                        path: e.path.clone(),
                        kind: ChangeKind::Modified,
                        old_ref: old,
                        new_ref: new,
                    },
                )
            }
        },
    }
}

/// Lists the changes of a tree against the last commit: what is staged if
/// `staged_only`, what the working directory holds otherwise.
pub fn changes_of(tree: &WorkTree, staged_only: bool) -> (r: Vec<Change>)
    ensures
        change_views(r@) == changes_since_head(tree@, staged_only),
{
    let entries = tree.entries();
    let ghost s = tree@;
    let mut r: Vec<Change> = Vec::new();
    let n = entries.len();
    let mut i: usize = 0;
    assert(s.take(0) =~= Seq::<PathState>::empty());
    assert(change_views(r@) =~= Seq::<ChangeView>::empty());
    while i < n
        invariant
            n == entries.len(),
            i <= n,
            states(entries@) == s,
            change_views(r@) == changes_since_head(s.take(i as int), staged_only),
        decreases n - i,
    {
        let ghost prefix = s.take(i as int);
        let ghost next = s.take(i + 1);
        let ghost before = r@;
        assert(next.drop_last() =~= prefix);
        assert(next.last() == s[i as int]);
        assert(s[i as int] == entries@[i as int]@);
        match change_entry(&entries[i], staged_only) {
            Some(c) => {
                r.push(c);
                assert(change_views(r@) =~= change_views(before).push(c@));
            },
            None => {},
        }
        i += 1;
    }
    assert(s.take(n as int) =~= s);
    r
}

/// The settings of the diff engine.
#[derive(Clone, Copy, Debug, PartialEq, Eq)]
pub struct DiffSettings {
    /// The largest diff text, in bytes, that is cut into hunks. A larger one
    /// is reported by a marker; path and kind are reported all the same.
    pub max_diff_bytes: usize,
}

/// The diff text of one path, as the diff algorithm produced it.
#[derive(Clone, Debug, PartialEq, Eq)]
pub struct Patch {
    pub path: String,
    pub text: Vec<u8>,
}

/// The mathematical model of a [`Patch`].
pub struct PatchView {
    pub path: Seq<char>,
    pub text: Seq<u8>,
}

impl View for Patch {
    type V = PatchView;

    open spec fn view(&self) -> PatchView {
        PatchView { path: self.path@, text: self.text@ }
    }
}

/// The model of every patch of a sequence, in order.
pub open spec fn patch_views(v: Seq<Patch>) -> Seq<PatchView> {
    Seq::new(v.len(), |i: int| v[i]@)
}

/// The diff text for `path`: that of the first patch with this path, or the
/// empty text if there is none.
pub open spec fn patch_for(patches: Seq<PatchView>, path: Seq<char>) -> Seq<u8>
    decreases patches.len(),
{
    if patches.len() == 0 {
        Seq::empty()
    } else if patches[0].path == path {
        patches[0].text
    } else {
        patch_for(patches.drop_first(), path)
    }
}

/// The body of a file diff: its hunks, or the reason why it has none.
#[derive(Clone, Debug, PartialEq, Eq)]
pub enum DiffBody {
    /// The hunks of the diff text, of which there is at least one.
    Hunks(Vec<Hunk>),
    /// The diff text holds no hunk, as for binary content.
    Binary,
    /// The diff text is larger than the configured maximum.
    TooLarge,
}

/// The mathematical model of a [`DiffBody`].
pub enum BodyView {
    Hunks(Seq<Seq<u8>>),
    Binary,
    TooLarge,
}

impl View for DiffBody {
    type V = BodyView;

    open spec fn view(&self) -> BodyView {
        match self {
            DiffBody::Hunks(h) => BodyView::Hunks(hunk_texts(h@)),
            DiffBody::Binary => BodyView::Binary,
            DiffBody::TooLarge => BodyView::TooLarge,
        }
    }
}

impl BodyView {
    /// The number of hunks.
    pub open spec fn hunk_count(self) -> nat {
        match self {
            BodyView::Hunks(h) => h.len(),
            _ => 0,
        }
    }

    /// Whether the body is a marker in place of hunks.
    pub open spec fn is_marker(self) -> bool {
        self is Binary || self is TooLarge
    }
}

/// The body for a diff text under a maximum size.
pub open spec fn body_of(patch: Seq<u8>, max: nat) -> BodyView {
    if patch.len() > max {
        BodyView::TooLarge
    } else if hunk_starts(patch, patch.len() as int).len() == 0 {
        BodyView::Binary
    } else {
        BodyView::Hunks(hunks_of(patch))
    }
}

/// Shapes a diff text: a text larger than `max` bytes gives the too-large
/// marker whatever it holds, a text without hunks the binary marker, any
/// other text its hunks.
pub fn shape_body(patch: &Vec<u8>, max: usize) -> (body: DiffBody)
    ensures
        body@ == body_of(patch@, max as nat),
        patch.len() > max ==> body@ is TooLarge && body@.hunk_count() == 0,
        body@.hunk_count() == 0 <==> body@.is_marker(),
{
    if patch.len() > max {
        DiffBody::TooLarge
    } else {
        let hunks = split_hunks(patch);
        assert(hunks_of(patch@).len() == hunk_starts(patch@, patch.len() as int).len());
        if hunks.len() == 0 {
            DiffBody::Binary
        } else {
            DiffBody::Hunks(hunks)
        }
    }
}

/// The diff of one file.
#[derive(Clone, Debug, PartialEq, Eq)]
pub struct FileDiff {
    /// The path of the file, relative to the repository root.
    pub path: String,
    pub kind: ChangeKind,
    pub old_ref: Option<u64>,
    pub new_ref: Option<u64>,
    pub body: DiffBody,
}

/// The mathematical model of a [`FileDiff`].
pub struct FileDiffView {
    pub path: Seq<char>,
    pub kind: ChangeKind,
    pub old_ref: Option<u64>,
    pub new_ref: Option<u64>,
    pub body: BodyView,
}

impl View for FileDiff {
    type V = FileDiffView;

    open spec fn view(&self) -> FileDiffView {
        FileDiffView {
            path: self.path@,
            kind: self.kind,
            old_ref: self.old_ref,
            new_ref: self.new_ref,
            body: self.body@,
        }
    }
}

impl FileDiffView {
    /// The invariant of a file diff: the path is relative, and there are no
    /// hunks exactly when the body is a marker.
    pub open spec fn wf(self) -> bool {
        &&& relative(self.path)
        &&& self.body.hunk_count() == 0 <==> self.body.is_marker()
    }
}

impl FileDiff {
    /// The number of hunks.
    pub fn hunk_count(&self) -> (n: usize)
        ensures
            n == self@.body.hunk_count(),
    {
        match &self.body {
            DiffBody::Hunks(h) => h.len(),
            _ => 0,
        }
    }

    /// Whether the diff carries a marker in place of hunks.
    pub fn is_marker(&self) -> (r: bool)
        ensures
            r == self@.body.is_marker(),
    {
        match &self.body {
            DiffBody::Hunks(_) => false,
            _ => true,
        }
    }
}

/// The model of every file diff of a sequence, in order.
pub open spec fn file_diff_views(v: Seq<FileDiff>) -> Seq<FileDiffView> {
    Seq::new(v.len(), |i: int| v[i]@)
}

/// The diff of one file for a change, its diff text and a maximum size.
pub open spec fn file_diff_of(change: ChangeView, patch: Seq<u8>, max: nat) -> FileDiffView {
    FileDiffView {
        path: change.path,
        kind: change.kind,
        old_ref: change.old_ref,
        new_ref: change.new_ref,
        body: body_of(patch, max),
    }
}

/// The file diffs for a list of changes, each with the diff text that
/// `patches` holds for its path.
pub open spec fn file_diffs_of(changes: Seq<ChangeView>, patches: Seq<PatchView>, max: nat) -> Seq<
    FileDiffView,
> {
    Seq::new(
        changes.len(),
        |i: int| file_diff_of(changes[i], patch_for(patches, changes[i].path), max),
    )
}

/// Shapes the diff of one file. Path, kind and content references are those
/// of the change; the body is shaped from the diff text as `shape_body` does.
pub fn shape_file_diff(change: &Change, patch: &Vec<u8>, settings: &DiffSettings) -> (d: FileDiff)
    ensures
        d@ == file_diff_of(change@, patch@, settings.max_diff_bytes as nat),
        patch.len() > settings.max_diff_bytes ==> d@.body is TooLarge && d@.body.hunk_count() == 0,
        relative(change@.path) ==> d@.wf(),
{
    FileDiff {
        path: change.path.clone(),
        kind: change.kind,
        old_ref: change.old_ref,
        new_ref: change.new_ref,
        body: shape_body(patch, settings.max_diff_bytes),
    }
}

fn find_patch(patches: &Vec<Patch>, path: &String) -> (place: Option<usize>)
    ensures
        match place {
            Some(i) => i < patches.len() && patches@[i as int].text@ == patch_for(
                patch_views(patches@),
                path@,
            ),
            None => patch_for(patch_views(patches@), path@) == Seq::<u8>::empty(),
        },
{
    let ghost all = patch_views(patches@);
    let n = patches.len();
    let mut i: usize = 0;
    assert(all.skip(0) =~= all);
    while i < n
        invariant
            n == patches.len(),
            i <= n,
            all == patch_views(patches@),
            patch_for(all, path@) == patch_for(all.skip(i as int), path@),
        decreases n - i,
    {
        let ghost rest = all.skip(i as int);
        assert(rest[0] == patches@[i as int]@);
        assert(rest.drop_first() =~= all.skip(i + 1));
        if patches[i].path == *path {
            return Some(i);
        }
        i += 1;
    }
    None
}

/// Shapes the diff of every change of a list, in order.
pub fn shape_changes(changes: &Vec<Change>, patches: &Vec<Patch>, settings: &DiffSettings) -> (r:
    Vec<FileDiff>)
    ensures
        file_diff_views(r@) == file_diffs_of(
            change_views(changes@),
            patch_views(patches@),
            settings.max_diff_bytes as nat,
        ),
{
    let empty: Vec<u8> = Vec::new();
    let mut r: Vec<FileDiff> = Vec::new();
    let n = changes.len();
    let mut i: usize = 0;
    while i < n
        invariant
            n == changes.len(),
            i <= n,
            r.len() == i,
            empty@ == Seq::<u8>::empty(),
            forall|k: int|
                0 <= k < i ==> (#[trigger] r@[k])@ == file_diff_of(
                    changes@[k]@,
                    patch_for(patch_views(patches@), changes@[k]@.path),
                    settings.max_diff_bytes as nat,
                ),
        decreases n - i,
    {
        let d = match find_patch(patches, &changes[i].path) {
            Some(j) => shape_file_diff(&changes[i], &patches[j].text, settings),
            None => shape_file_diff(&changes[i], &empty, settings),
        };
        r.push(d);
        i += 1;
    }
    assert(file_diff_views(r@) =~= file_diffs_of(
        change_views(changes@),
        patch_views(patches@),
        settings.max_diff_bytes as nat,
    ));
    r
}

/// Returns the diff of every file that differs between the last commit and
/// the working directory, staged or not, in the order of the tree. A file
/// whose diff text is larger than the configured maximum comes with the
/// too-large marker and no hunks.
pub fn get_file_diffs(tree: &WorkTree, patches: &Vec<Patch>, settings: &DiffSettings) -> (r: Vec<
    FileDiff,
>)
    requires
        tree.wf(),
    ensures
        file_diff_views(r@) == file_diffs_of(
            changes_since_head(tree@, false),
            patch_views(patches@),
            settings.max_diff_bytes as nat,
        ),
        forall|i: int| 0 <= i < r.len() ==> (#[trigger] r@[i])@.wf(),
        forall|i: int|
            0 <= i < r.len() && patch_for(patch_views(patches@), (#[trigger] r@[i])@.path).len()
                > settings.max_diff_bytes ==> r@[i]@.body is TooLarge && r@[i]@.body.hunk_count()
                == 0,
{
    let changes = changes_of(tree, false);
    let r = shape_changes(&changes, patches, settings);
    proof {
        lemma_changes_relative(tree@, false);
        let cs = changes_since_head(tree@, false);
        let ds = file_diffs_of(cs, patch_views(patches@), settings.max_diff_bytes as nat);
        assert(file_diff_views(r@).len() == r.len());
        assert(ds.len() == cs.len());
        assert forall|i: int| 0 <= i < r.len() implies (#[trigger] r@[i])@.wf() by {
            assert(r@[i]@ == file_diff_views(r@)[i]);
            assert(ds[i].path == cs[i].path);
        }
        assert forall|i: int|
            0 <= i < r.len() && patch_for(patch_views(patches@), (#[trigger] r@[i])@.path).len()
                > settings.max_diff_bytes implies r@[i]@.body is TooLarge
            && r@[i]@.body.hunk_count() == 0 by {
            assert(r@[i]@ == file_diff_views(r@)[i]);
            assert(ds[i].path == cs[i].path);
        }
    }
    r
}

/// The diff texts of a list of changes, one after the other.
pub open spec fn combined(changes: Seq<ChangeView>, patches: Seq<PatchView>) -> Seq<u8> {
    concat_all(Seq::new(changes.len(), |i: int| patch_for(patches, changes[i].path)))
}

/// Returns the combined diff of the working directory against the last
/// commit: the diff text of every changed file, in the order of the tree,
/// byte for byte as the diff algorithm produced it.
pub fn collect_workspace_diff(tree: &WorkTree, patches: &Vec<Patch>) -> (text: Vec<u8>)
    ensures
        text@ == combined(changes_since_head(tree@, false), patch_views(patches@)),
{
    let changes = changes_of(tree, false);
    let ghost cs = change_views(changes@);
    let ghost ps = patch_views(patches@);
    let ghost parts = Seq::new(cs.len(), |i: int| patch_for(ps, cs[i].path));
    let mut text: Vec<u8> = Vec::new();
    let n = changes.len();
    let mut i: usize = 0;
    assert(parts.take(0) =~= Seq::<Seq<u8>>::empty());
    while i < n
        invariant
            n == changes.len(),
            i <= n,
            cs == change_views(changes@),
            ps == patch_views(patches@),
            parts == Seq::new(cs.len(), |i: int| patch_for(ps, cs[i].path)),
            text@ == concat_all(parts.take(i as int)),
        decreases n - i,
    {
        let ghost upto = parts.take(i + 1);
        assert(upto.drop_last() =~= parts.take(i as int));
        assert(upto.last() == patch_for(ps, changes@[i as int]@.path));
        match find_patch(patches, &changes[i].path) {
            Some(j) => {
                let src = &patches[j].text;
                let m = src.len();
                let ghost base = text@;
                let mut k: usize = 0;
                while k < m
                    invariant
                        m == src.len(),
                        k <= m,
                        text@ == base + src@.take(k as int),
                    decreases m - k,
                {
                    text.push(src[k]);
                    assert(src@.take(k + 1) =~= src@.take(k as int).push(src@[k as int]));
                    assert(base + src@.take(k + 1) =~= (base + src@.take(k as int)).push(
                        src@[k as int],
                    ));
                    k += 1;
                }
                assert(src@.take(m as int) =~= src@);
            },
            None => {
                assert(text@ + Seq::<u8>::empty() =~= text@);
            },
        }
        i += 1;
    }
    assert(parts.take(n as int) =~= parts);
    text
}

/// The diff of one commit against its first parent.
#[derive(Clone, Debug, PartialEq, Eq)]
pub struct CommitDiff {
    pub sha: String,
    pub parents: Vec<String>,
    pub files: Vec<FileDiff>,
}

/// The mathematical model of a [`CommitDiff`].
pub struct CommitDiffView {
    pub sha: Seq<char>,
    pub parents: Seq<Seq<char>>,
    pub files: Seq<FileDiffView>,
}

impl View for CommitDiff {
    type V = CommitDiffView;

    open spec fn view(&self) -> CommitDiffView {
        CommitDiffView {
            sha: self.sha@,
            parents: views(self.parents@),
            files: file_diff_views(self.files@),
        }
    }
}

/// Returns the diff of the commit `sha`: one element, with the commit's
/// parents and the diff of every file that the commit changed, each shaped as
/// `get_file_diffs` shapes it. Where several commits have the identifier, the
/// most recent one is meant. Fails with `CommitNotFound` if the history has
/// no such commit.
pub fn get_commit_diff(
    history: &History,
    sha: &String,
    patches: &Vec<Patch>,
    settings: &DiffSettings,
) -> (r: Result<Vec<CommitDiff>, CoreError>)
    requires
        history.wf(),
    ensures
        !has_commit(history@, sha@) ==> r == Err::<Vec<CommitDiff>, CoreError>(
            CoreError::CommitNotFound,
        ),
        has_commit(history@, sha@) ==> r is Ok && r->Ok_0.len() == 1 && r->Ok_0@[0]@ == ({
            let commit = history@[commit_place(history@, sha@)];
            CommitDiffView {
                sha: commit.entry.sha,
                parents: commit.entry.parents,
                files: file_diffs_of(
                    commit.changes,
                    patch_views(patches@),
                    settings.max_diff_bytes as nat,
                ),
            }
        }) && forall|i: int|
            0 <= i < r->Ok_0@[0].files.len() ==> (#[trigger] r->Ok_0@[0].files@[i])@.wf(),
        r is Ok ==> forall|i: int|
            0 <= i < r->Ok_0@[0].files.len() && patch_for(
                patch_views(patches@),
                (#[trigger] r->Ok_0@[0].files@[i])@.path,
            ).len() > settings.max_diff_bytes ==> r->Ok_0@[0].files@[i]@.body is TooLarge
                && r->Ok_0@[0].files@[i]@.body.hunk_count() == 0,
{
    match history.find(sha) {
        None => Err(CoreError::CommitNotFound),
        Some(place) => {
            let commits = history.commits();
            assert(commit_views(commits@).len() == commits.len());
            let commit = &commits[place];
            assert(commit@ == commit_views(commits@)[place as int]);
            assert(commit@ == history@[place as int]);
            assert(history@[place as int].wf());
            let files = shape_changes(&commit.changes, patches, settings);
            proof {
                let ds = file_diffs_of(
                    commit@.changes,
                    patch_views(patches@),
                    settings.max_diff_bytes as nat,
                );
                assert(file_diff_views(files@).len() == files.len());
                assert(change_views(commit.changes@).len() == commit.changes.len());
                assert forall|i: int| 0 <= i < files.len() implies (#[trigger] files@[i])@.wf() by {
                    assert(files@[i]@ == file_diff_views(files@)[i]);
                    assert(ds[i].path == commit@.changes[i].path);
                }
                assert forall|i: int|
                    0 <= i < files.len() && patch_for(
                        patch_views(patches@),
                        (#[trigger] files@[i])@.path,
                    ).len() > settings.max_diff_bytes implies files@[i]@.body is TooLarge
                    && files@[i]@.body.hunk_count() == 0 by {
                    assert(files@[i]@ == file_diff_views(files@)[i]);
                    assert(ds[i].path == commit@.changes[i].path);
                }
            }
            let diff = CommitDiff {
                sha: commit.entry.sha.clone(),
                parents: copy_strings(&commit.entry.parents),
                files,
            };
            let mut v: Vec<CommitDiff> = Vec::new();
            v.push(diff);
            Ok(v)
        },
    }
}

} // verus!
