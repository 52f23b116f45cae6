//! The working tree of one repository as a state machine.
//!
//! Every path has content in up to three places: the last commit (`head`),
//! the index (`index`) and the working directory (`work`). Content is named
//! by an opaque reference; two references are equal exactly when the content
//! is. Status is derived from the three references, and each operation moves
//! one reference onto another:
//!
//! | move      | effect            |
//! |-----------|-------------------|
//! | stage     | `index := work`   |
//! | unstage   | `index := head`   |
//! | revert    | `work := index`   |
//! | commit    | `head := index`   |
//!
//! A path that is left without content in all three places leaves the tree.

use crate::error::CoreError;
use crate::text::views;
use vstd::prelude::*;
use vstd::string::*;

verus! {

/// One path of a working tree and the content it has in the last commit, in
/// the index and in the working directory.
#[derive(Clone, Debug, PartialEq, Eq)]
pub struct TrackedPath {
    pub path: String,
    pub head: Option<u64>,
    pub index: Option<u64>,
    pub work: Option<u64>,
}

/// The mathematical model of a [`TrackedPath`].
pub struct PathState {
    pub path: Seq<char>,
    pub head: Option<u64>,
    pub index: Option<u64>,
    pub work: Option<u64>,
}

impl View for TrackedPath {
    type V = PathState;

    open spec fn view(&self) -> PathState {
        PathState { path: self.path@, head: self.head, index: self.index, work: self.work }
    }
}

/// The four lists of a status report.
#[derive(Clone, Copy, Debug, PartialEq, Eq, Structural)]
pub enum Category {
    /// In the working directory, unknown to the index.
    Untracked,
    /// In the index and in the working directory, with different content.
    Modified,
    /// The index differs from the last commit.
    Staged,
    /// In the index, gone from the working directory.
    Deleted,
}

/// The elementary moves of the state machine.
#[derive(Clone, Copy, Debug, PartialEq, Eq, Structural)]
pub enum Move {
    /// `index := work`
    Stage,
    /// `index := head`
    Unstage,
    /// `work := index`
    Revert,
    /// `head := index`
    Commit,
}

impl PathState {
    /// Whether the path has content anywhere.
    pub open spec fn present(self) -> bool {
        self.head is Some || self.index is Some || self.work is Some
    }

    /// Whether the working directory holds the path and the index does not.
    pub open spec fn untracked(self) -> bool {
        self.index is None && self.work is Some
    }

    /// Whether index and working directory both hold the path, with
    /// different content.
    pub open spec fn modified(self) -> bool {
        self.index is Some && self.work is Some && self.index != self.work
    }

    /// Whether the index differs from the last commit.
    pub open spec fn staged(self) -> bool {
        self.index != self.head
    }

    /// Whether the index holds the path and the working directory does not.
    pub open spec fn deleted(self) -> bool {
        self.index is Some && self.work is None
    }

    /// Whether a status report lists this path under `c`.
    pub open spec fn in_category(self, c: Category) -> bool {
        match c {
            Category::Untracked => self.untracked(),
            Category::Modified => self.modified(),
            Category::Staged => self.staged(),
            Category::Deleted => self.deleted(),
        }
    }

    /// Whether the path differs from the last commit, in the index or in the
    /// working directory.
    pub open spec fn dirty(self) -> bool {
        self.index != self.head || self.work != self.index
    }

    /// Whether `m` applies to this path: the place that the move reads from
    /// or writes to knows the path.
    pub open spec fn admits(self, m: Move) -> bool {
        match m {
            Move::Stage => self.index is Some || self.work is Some,
            Move::Unstage => self.index is Some || self.head is Some,
            Move::Revert => self.index is Some || self.work is Some,
            Move::Commit => true,
        }
    }

    /// This path after the move `m`.
    pub open spec fn moved(self, m: Move) -> PathState {
        match m {
            Move::Stage => PathState { index: self.work, ..self },
            Move::Unstage => PathState { index: self.head, ..self },
            Move::Revert => PathState { work: self.index, ..self },
            Move::Commit => PathState { head: self.index, ..self },
        }
    }

    /// This path after the move `m` aimed at `target`: `None` aims at every
    /// path, `Some(p)` at the path `p` alone.
    pub open spec fn stepped(self, m: Move, target: Option<Seq<char>>) -> PathState {
        if aims_at(target, self.path) {
            self.moved(m)
        } else {
            self
        }
    }
}

/// Whether a move aimed at `target` touches `path`.
pub open spec fn aims_at(target: Option<Seq<char>>, path: Seq<char>) -> bool {
    target is None || target == Some(path)
}

/// Whether a path is relative: not empty and not starting at the root.
pub open spec fn relative(path: Seq<char>) -> bool {
    path.len() > 0 && path[0] != '/'
}

/// The invariant of a tree: every path is relative and has content somewhere,
/// and no path occurs twice.
pub open spec fn tree_wf(s: Seq<PathState>) -> bool {
    &&& forall|i: int| 0 <= i < s.len() ==> (#[trigger] s[i]).present() && relative(s[i].path)
    &&& forall|i: int, j: int| 0 <= i < j < s.len() ==> (#[trigger] s[i]).path != (#[trigger] s[j]).path
}

/// Whether the tree has an entry for `path`.
pub open spec fn knows(s: Seq<PathState>, path: Seq<char>) -> bool {
    exists|i: int| 0 <= i < s.len() && (#[trigger] s[i]).path == path
}

/// The place of `path` in the tree, if the tree knows it.
pub open spec fn position(s: Seq<PathState>, path: Seq<char>) -> int {
    choose|i: int| 0 <= i < s.len() && (#[trigger] s[i]).path == path
}

/// The state of `path`: its entry, or no content anywhere if the tree does
/// not know it.
pub open spec fn state_of(s: Seq<PathState>, path: Seq<char>) -> PathState {
    if knows(s, path) {
        s[position(s, path)]
    } else {
        PathState { path, head: None, index: None, work: None }
    }
}

/// Whether the move `m` can be aimed at `path`.
pub open spec fn admits(s: Seq<PathState>, m: Move, path: Seq<char>) -> bool {
    knows(s, path) && state_of(s, path).admits(m)
}

/// The paths that a status report lists under `c`, in the order of the tree.
pub open spec fn select(s: Seq<PathState>, c: Category) -> Seq<Seq<char>>
    decreases s.len(),
{
    if s.len() == 0 {
        Seq::empty()
    } else if s.last().in_category(c) {
        select(s.drop_last(), c).push(s.last().path)
    } else {
        select(s.drop_last(), c)
    }
}

/// Whether the index differs from the last commit anywhere.
pub open spec fn has_staged(s: Seq<PathState>) -> bool {
    exists|i: int| 0 <= i < s.len() && (#[trigger] s[i]).staged()
}

/// The tree after the move `m` aimed at `target`. Paths keep their order; a
/// path left without content anywhere is dropped.
pub open spec fn apply(s: Seq<PathState>, m: Move, target: Option<Seq<char>>) -> Seq<PathState>
    decreases s.len(),
{
    if s.len() == 0 {
        Seq::empty()
    } else if s.last().stepped(m, target).present() {
        apply(s.drop_last(), m, target).push(s.last().stepped(m, target))
    } else {
        apply(s.drop_last(), m, target)
    }
}

/// The tree after `e` was observed: `e` takes the place of the entry for its
/// path, or joins the tree at its end; an `e` without content anywhere makes
/// the tree forget the path.
pub open spec fn recorded(s: Seq<PathState>, e: PathState) -> Seq<PathState> {
    if knows(s, e.path) {
        if e.present() {
            s.update(position(s, e.path), e)
        } else {
            s.remove(position(s, e.path))
        }
    } else if e.present() {
        s.push(e)
    } else {
        s
    }
}

/// Every path of the tree after a move was a path of the tree before it.
pub proof fn lemma_apply_paths(s: Seq<PathState>, m: Move, target: Option<Seq<char>>)
    ensures
        apply(s, m, target).len() <= s.len(),
        forall|j: int|
            0 <= j < apply(s, m, target).len() ==> knows(s, (#[trigger] apply(s, m, target)[j]).path),
        forall|j: int|
            0 <= j < apply(s, m, target).len() ==> (#[trigger] apply(s, m, target)[j]).present(),
    decreases s.len(),
{
    if s.len() > 0 {
        let t = s.drop_last();
        lemma_apply_paths(t, m, target);
        let a = apply(s, m, target);
        let b = apply(t, m, target);
        assert forall|j: int| 0 <= j < a.len() implies knows(s, (#[trigger] a[j]).path) by {
            if j < b.len() {
                assert(a[j] == b[j]);
                let k = choose|k: int| 0 <= k < t.len() && (#[trigger] t[k]).path == b[j].path;
                assert(s[k].path == a[j].path);
            } else {
                assert(s[s.len() - 1].path == a[j].path);
            }
        }
    }
}

/// A move keeps the invariant of the tree.
pub proof fn lemma_apply_wf(s: Seq<PathState>, m: Move, target: Option<Seq<char>>)
    requires
        tree_wf(s),
    ensures
        tree_wf(apply(s, m, target)),
    decreases s.len(),
{
    if s.len() > 0 {
        let t = s.drop_last();
        assert(tree_wf(t)) by {
            assert forall|i: int| 0 <= i < t.len() implies (#[trigger] t[i]).present() && relative(
                t[i].path,
            ) by {
                assert(t[i] == s[i]);
            }
            assert forall|i: int, j: int| 0 <= i < j < t.len() implies (#[trigger] t[i]).path != (
            #[trigger] t[j]).path by {
                assert(t[i] == s[i] && t[j] == s[j]);
            }
        }
        lemma_apply_wf(t, m, target);
        lemma_apply_paths(t, m, target);
        lemma_apply_paths(s, m, target);
        let a = apply(s, m, target);
        let b = apply(t, m, target);
        assert forall|i: int| 0 <= i < a.len() implies (#[trigger] a[i]).present() && relative(
            a[i].path,
        ) by {
            let k = choose|k: int| 0 <= k < s.len() && (#[trigger] s[k]).path == a[i].path;
            assert(relative(s[k].path));
        }
        assert forall|i: int, j: int| 0 <= i < j < a.len() implies (#[trigger] a[i]).path != (
        #[trigger] a[j]).path by {
            if j < b.len() {
                assert(a[i] == b[i] && a[j] == b[j]);
            } else {
                assert(a[i] == b[i]);
                let k = choose|k: int| 0 <= k < t.len() && (#[trigger] t[k]).path == b[i].path;
                assert(s[k].path == a[i].path);
                assert(s[s.len() - 1].path == a[j].path);
            }
        }
    }
}

/// Every prefix of a well-formed tree is well formed.
pub proof fn lemma_prefix_wf(s: Seq<PathState>, n: int)
    requires
        tree_wf(s),
        0 <= n <= s.len(),
    ensures
        tree_wf(s.take(n)),
{
    let t = s.take(n);
    assert forall|i: int| 0 <= i < t.len() implies (#[trigger] t[i]).present() && relative(
        t[i].path,
    ) by {
        assert(t[i] == s[i]);
    }
    assert forall|i: int, j: int| 0 <= i < j < t.len() implies (#[trigger] t[i]).path != (
    #[trigger] t[j]).path by {
        assert(t[i] == s[i] && t[j] == s[j]);
    }
}

/// In a well-formed tree a path stands at one place only.
pub proof fn lemma_position_unique(s: Seq<PathState>, i: int)
    requires
        tree_wf(s),
        0 <= i < s.len(),
    ensures
        knows(s, s[i].path),
        position(s, s[i].path) == i,
        state_of(s, s[i].path) == s[i],
{
    let p = position(s, s[i].path);
    assert(0 <= p < s.len() && s[p].path == s[i].path);
    if p < i {
        assert(s[p].path != s[i].path);
    }
    if i < p {
        assert(s[i].path != s[p].path);
    }
}

/// Whether no entry of the tree would change under the move `m`.
pub open spec fn settled(s: Seq<PathState>, m: Move) -> bool {
    forall|i: int| 0 <= i < s.len() ==> (#[trigger] s[i]).moved(m) == s[i]
}

/// Applying the same move to the same target twice in a row gives the tree
/// that the first application gave.
pub proof fn lemma_apply_idempotent(s: Seq<PathState>, m: Move, target: Option<Seq<char>>)
    ensures
        apply(apply(s, m, target), m, target) == apply(s, m, target),
    decreases s.len(),
{
    if s.len() > 0 {
        let t = s.drop_last();
        lemma_apply_idempotent(t, m, target);
        let e = s.last().stepped(m, target);
        assert(e.stepped(m, target) == e);
        if e.present() {
            let a = apply(t, m, target).push(e);
            assert(a.drop_last() =~= apply(t, m, target));
            assert(a.last() == e);
        }
    }
}

/// After a move aimed at every path, a second such move finds nothing to do.
pub proof fn lemma_apply_all_settles(s: Seq<PathState>, m: Move)
    ensures
        settled(apply(s, m, None), m),
    decreases s.len(),
{
    if s.len() > 0 {
        let t = s.drop_last();
        lemma_apply_all_settles(t, m);
        let e = s.last().stepped(m, None);
        assert(e.moved(m) == e);
        let a = apply(s, m, None);
        let b = apply(t, m, None);
        assert forall|i: int| 0 <= i < a.len() implies (#[trigger] a[i]).moved(m) == a[i] by {
            if i < b.len() {
                assert(a[i] == b[i]);
            }
        }
    }
}

/// A category that no entry falls under has an empty list.
pub proof fn lemma_select_none(s: Seq<PathState>, c: Category)
    requires
        forall|i: int| 0 <= i < s.len() ==> !(#[trigger] s[i]).in_category(c),
    ensures
        select(s, c) == Seq::<Seq<char>>::empty(),
    decreases s.len(),
{
    if s.len() > 0 {
        let t = s.drop_last();
        assert forall|i: int| 0 <= i < t.len() implies !(#[trigger] t[i]).in_category(c) by {
            assert(t[i] == s[i]);
        }
        lemma_select_none(t, c);
        assert(!s[s.len() - 1].in_category(c));
    }
}

/// Staging and then unstaging a path restores the tree, and with it the
/// status, provided that nothing was staged for the path before: the move
/// `unstage` resets the index to the last commit, so an earlier staged change
/// of the same path does not come back.
pub proof fn lemma_stage_unstage_round_trip(s: Seq<PathState>, path: Seq<char>)
    requires
        tree_wf(s),
        admits(s, Move::Stage, path),
        !state_of(s, path).staged(),
    ensures
        admits(apply(s, Move::Stage, Some(path)), Move::Unstage, path),
        apply(apply(s, Move::Stage, Some(path)), Move::Unstage, Some(path)) == s,
        forall|c: Category|
            select(apply(apply(s, Move::Stage, Some(path)), Move::Unstage, Some(path)), c)
                == select(s, c),
{
    let i = position(s, path);
    lemma_position_unique(s, i);
    assert forall|k: int| 0 <= k < s.len() && (#[trigger] s[k]).path == path implies !s[k].staged() by {
        lemma_position_unique(s, k);
    }
    lemma_stage_keeps_unstaged(s, path);
    let r = apply(s, Move::Stage, Some(path));
    lemma_apply_wf(s, Move::Stage, Some(path));
    assert(r[i] == s[i].stepped(Move::Stage, Some(path)));
    lemma_position_unique(r, i);
}

proof fn lemma_stage_keeps_unstaged(s: Seq<PathState>, path: Seq<char>)
    requires
        forall|k: int| 0 <= k < s.len() ==> (#[trigger] s[k]).present(),
        forall|k: int| 0 <= k < s.len() && (#[trigger] s[k]).path == path ==> !s[k].staged(),
    ensures
        apply(s, Move::Stage, Some(path)).len() == s.len(),
        forall|k: int|
            0 <= k < s.len() ==> (#[trigger] apply(s, Move::Stage, Some(path))[k]) == s[k].stepped(
                Move::Stage,
                Some(path),
            ),
        apply(apply(s, Move::Stage, Some(path)), Move::Unstage, Some(path)) == s,
    decreases s.len(),
{
    let target = Some(path);
    if s.len() > 0 {
        let t = s.drop_last();
        assert forall|k: int| 0 <= k < t.len() implies (#[trigger] t[k]).present() by {
            assert(t[k] == s[k]);
        }
        assert forall|k: int| 0 <= k < t.len() && (#[trigger] t[k]).path == path implies !t[k].staged() by {
            assert(t[k] == s[k]);
        }
        lemma_stage_keeps_unstaged(t, path);
        let last = s[s.len() - 1];
        assert(last.present());
        let e = last.stepped(Move::Stage, target);
        assert(e.present());
        let a = apply(t, Move::Stage, target).push(e);
        assert(a.drop_last() =~= apply(t, Move::Stage, target));
        assert(a.last() == e);
        assert(e.stepped(Move::Unstage, target) == last);
        assert(t.push(last) =~= s);
    } else {
        assert(apply(apply(s, Move::Stage, target), Move::Unstage, target) =~= s);
    }
}

/// Staging a new file, one that is untracked and not in the last commit,
/// makes it staged and no longer untracked, and leaves every other path as
/// it was.
pub proof fn lemma_stage_new_file(s: Seq<PathState>, path: Seq<char>)
    requires
        tree_wf(s),
        knows(s, path),
        state_of(s, path).untracked(),
        state_of(s, path).head is None,
    ensures
        admits(s, Move::Stage, path),
        apply(s, Move::Stage, Some(path)) == s.update(
            position(s, path),
            state_of(s, path).moved(Move::Stage),
        ),
        state_of(apply(s, Move::Stage, Some(path)), path).staged(),
        !state_of(apply(s, Move::Stage, Some(path)), path).untracked(),
{
    let i = position(s, path);
    lemma_position_unique(s, i);
    let r = apply(s, Move::Stage, Some(path));
    lemma_stage_keeps_present(s, path);
    lemma_apply_wf(s, Move::Stage, Some(path));
    assert(r[i] == s[i].stepped(Move::Stage, Some(path)));
    lemma_position_unique(r, i);
    assert forall|k: int| 0 <= k < s.len() implies r[k] == s.update(i, s[i].moved(Move::Stage))[k] by {
        if k != i {
            lemma_position_unique(s, k);
        }
    }
    assert(r =~= s.update(i, s[i].moved(Move::Stage)));
}

proof fn lemma_stage_keeps_present(s: Seq<PathState>, path: Seq<char>)
    requires
        forall|k: int| 0 <= k < s.len() ==> (#[trigger] s[k]).present(),
        forall|k: int| 0 <= k < s.len() && (#[trigger] s[k]).path == path ==> s[k].work is Some,
    ensures
        apply(s, Move::Stage, Some(path)).len() == s.len(),
        forall|k: int|
            0 <= k < s.len() ==> (#[trigger] apply(s, Move::Stage, Some(path))[k]) == s[k].stepped(
                Move::Stage,
                Some(path),
            ),
    decreases s.len(),
{
    if s.len() > 0 {
        let t = s.drop_last();
        assert forall|k: int| 0 <= k < t.len() implies (#[trigger] t[k]).present() by {
            assert(t[k] == s[k]);
        }
        assert forall|k: int| 0 <= k < t.len() && (#[trigger] t[k]).path == path implies t[k].work is Some by {
            assert(t[k] == s[k]);
        }
        lemma_stage_keeps_present(t, path);
        assert(s[s.len() - 1].present());
    }
}

/// Staging everything twice in a row leaves the tree, and with it the status,
/// as the first call left it.
pub proof fn lemma_stage_all_idempotent(s: Seq<PathState>)
    ensures
        apply(apply(s, Move::Stage, None), Move::Stage, None) == apply(s, Move::Stage, None),
        forall|c: Category|
            select(apply(apply(s, Move::Stage, None), Move::Stage, None), c) == select(
                apply(s, Move::Stage, None),
                c,
            ),
{
    lemma_apply_idempotent(s, Move::Stage, None);
}

/// Once everything is staged, or every unstaged change is reverted, the
/// working directory equals the index: nothing is untracked, modified or
/// deleted.
pub proof fn lemma_nothing_unstaged(s: Seq<PathState>, m: Move)
    requires
        m == Move::Stage || m == Move::Revert,
    ensures
        select(apply(s, m, None), Category::Untracked) == Seq::<Seq<char>>::empty(),
        select(apply(s, m, None), Category::Modified) == Seq::<Seq<char>>::empty(),
        select(apply(s, m, None), Category::Deleted) == Seq::<Seq<char>>::empty(),
{
    let a = apply(s, m, None);
    lemma_apply_all_settles(s, m);
    assert forall|i: int| 0 <= i < a.len() implies a[i].index == (#[trigger] a[i]).work by {
        assert(a[i].moved(m) == a[i]);
    }
    lemma_select_none(a, Category::Untracked);
    lemma_select_none(a, Category::Modified);
    lemma_select_none(a, Category::Deleted);
}

/// Reverting, one path or all, keeps what is staged: the list of staged
/// paths is the same before and after.
pub proof fn lemma_revert_keeps_staged(s: Seq<PathState>, target: Option<Seq<char>>)
    requires
        forall|i: int| 0 <= i < s.len() ==> (#[trigger] s[i]).present(),
    ensures
        select(apply(s, Move::Revert, target), Category::Staged) == select(s, Category::Staged),
    decreases s.len(),
{
    if s.len() > 0 {
        let t = s.drop_last();
        assert forall|i: int| 0 <= i < t.len() implies (#[trigger] t[i]).present() by {
            assert(t[i] == s[i]);
        }
        lemma_revert_keeps_staged(t, target);
        let last = s[s.len() - 1];
        assert(last.present());
        let e = last.stepped(Move::Revert, target);
        assert(e.staged() == last.staged() && e.path == last.path);
        if e.present() {
            let a = apply(t, Move::Revert, target).push(e);
            assert(a.drop_last() =~= apply(t, Move::Revert, target));
            assert(a.last() == e);
        }
    }
}

/// Staging everything and committing leaves a clean tree: nothing is
/// untracked, modified, staged or deleted.
pub proof fn lemma_stage_all_then_commit_is_clean(s: Seq<PathState>)
    ensures
        forall|c: Category|
            select(apply(apply(s, Move::Stage, None), Move::Commit, None), c) == Seq::<
                Seq<char>,
            >::empty(),
{
    let staged = apply(s, Move::Stage, None);
    let done = apply(staged, Move::Commit, None);
    lemma_apply_all_settles(s, Move::Stage);
    lemma_apply_all_settles(staged, Move::Commit);
    lemma_stepped_everywhere(staged, Move::Commit);
    assert forall|i: int| 0 <= i < done.len() implies (#[trigger] done[i]).head == done[i].index
        && done[i].index == done[i].work by {
        assert(done[i].moved(Move::Commit) == done[i]);
        let k = choose|k: int| 0 <= k < staged.len() && done[i] == (#[trigger] staged[k]).moved(Move::Commit);
        assert(staged[k].moved(Move::Stage) == staged[k]);
    }
    assert forall|c: Category| select(done, c) == Seq::<Seq<char>>::empty() by {
        assert forall|i: int| 0 <= i < done.len() implies !(#[trigger] done[i]).in_category(c) by {
            assert(done[i].head == done[i].index && done[i].index == done[i].work);
        }
        lemma_select_none(done, c);
    }
}

/// Every entry of the tree after a move aimed at every path is the moved
/// form of an entry of the tree before it.
proof fn lemma_stepped_everywhere(s: Seq<PathState>, m: Move)
    ensures
        forall|i: int|
            0 <= i < apply(s, m, None).len() ==> exists|k: int|
                0 <= k < s.len() && (#[trigger] apply(s, m, None)[i]) == (#[trigger] s[k]).moved(m),
    decreases s.len(),
{
    if s.len() > 0 {
        let t = s.drop_last();
        lemma_stepped_everywhere(t, m);
        let a = apply(s, m, None);
        let b = apply(t, m, None);
        assert forall|i: int| 0 <= i < a.len() implies exists|k: int|
            0 <= k < s.len() && (#[trigger] a[i]) == (#[trigger] s[k]).moved(m) by {
            if i < b.len() {
                assert(a[i] == b[i]);
                let k = choose|k: int| 0 <= k < t.len() && b[i] == (#[trigger] t[k]).moved(m);
                assert(s[k] == t[k]);
            } else {
                assert(a[i] == s[s.len() - 1].moved(m));
            }
        }
    }
}

/// Once the index is committed, nothing is staged.
pub proof fn lemma_nothing_staged(s: Seq<PathState>)
    ensures
        !has_staged(apply(s, Move::Commit, None)),
        select(apply(s, Move::Commit, None), Category::Staged) == Seq::<Seq<char>>::empty(),
{
    let a = apply(s, Move::Commit, None);
    lemma_apply_all_settles(s, Move::Commit);
    assert forall|i: int| 0 <= i < a.len() implies !(#[trigger] a[i]).staged() by {
        assert(a[i].moved(Move::Commit) == a[i]);
    }
    lemma_select_none(a, Category::Staged);
}

/// The model of every entry of a sequence, in order.
pub open spec fn states(v: Seq<TrackedPath>) -> Seq<PathState> {
    Seq::new(v.len(), |i: int| v[i]@)
}

/// What `status` reports: the paths of each category, relative to the
/// repository root, in the order of the tree. A path may stand in several
/// lists.
#[derive(Clone, Debug, PartialEq, Eq)]
pub struct StatusReport {
    pub untracked: Vec<String>,
    pub modified: Vec<String>,
    pub staged: Vec<String>,
    pub deleted: Vec<String>,
}

/// The working tree of one repository.
#[derive(Clone, Debug)]
pub struct WorkTree {
    entries: Vec<TrackedPath>,
}

impl View for WorkTree {
    type V = Seq<PathState>;

    closed spec fn view(&self) -> Seq<PathState> {
        states(self.entries@)
    }
}

/// Tests a path for being relative.
pub fn is_relative(path: &String) -> (r: bool)
    ensures
        r == relative(path@),
{
    for c in it: path.as_str().chars()
        invariant
            it.seq() == path@,
            it.index() == 0,
    {
        return c != '/';
    }
    false
}

fn same(a: Option<u64>, b: Option<u64>) -> (r: bool)
    ensures
        r == (a == b),
{
    match (a, b) {
        (Some(x), Some(y)) => x == y,
        (None, None) => true,
        _ => false,
    }
}

impl TrackedPath {
    /// Whether the path has content anywhere.
    pub fn is_present(&self) -> (r: bool)
        ensures
            r == self@.present(),
    {
        self.head.is_some() || self.index.is_some() || self.work.is_some()
    }

    /// Whether a status report lists this path under `c`.
    pub fn is_in(&self, c: Category) -> (r: bool)
        ensures
            r == self@.in_category(c),
    {
        match c {
            Category::Untracked => self.index.is_none() && self.work.is_some(),
            Category::Modified => self.index.is_some() && self.work.is_some() && !same(
                self.index,
                self.work,
            ),
            Category::Staged => !same(self.index, self.head),
            Category::Deleted => self.index.is_some() && self.work.is_none(),
        }
    }

    /// Whether the path differs from the last commit.
    pub fn is_dirty(&self) -> (r: bool)
        ensures
            r == self@.dirty(),
    {
        !same(self.index, self.head) || !same(self.work, self.index)
    }

    fn admits(&self, m: Move) -> (r: bool)
        ensures
            r == self@.admits(m),
    {
        match m {
            Move::Stage => self.index.is_some() || self.work.is_some(),
            Move::Unstage => self.index.is_some() || self.head.is_some(),
            Move::Revert => self.index.is_some() || self.work.is_some(),
            Move::Commit => true,
        }
    }

    fn moved(&self, m: Move) -> (r: TrackedPath)
        ensures
            r@ == self@.moved(m),
    {
        let path = self.path.clone();
        match m {
            Move::Stage => TrackedPath { path, head: self.head, index: self.work, work: self.work },
            Move::Unstage => TrackedPath {
                path,
                head: self.head,
                index: self.head,
                work: self.work,
            },
            Move::Revert => TrackedPath {
                path,
                head: self.head,
                index: self.index,
                work: self.index,
            },
            Move::Commit => TrackedPath {
                path,
                head: self.index,
                index: self.index,
                work: self.work,
            },
        }
    }

    fn copy(&self) -> (r: TrackedPath)
        ensures
            r@ == self@,
    {
        TrackedPath { path: self.path.clone(), head: self.head, index: self.index, work: self.work }
    }
}

impl WorkTree {
    /// The invariant of the tree.
    pub open spec fn wf(&self) -> bool {
        tree_wf(self@)
    }

    /// An empty tree.
    pub fn new() -> (t: WorkTree)
        ensures
            t@ == Seq::<PathState>::empty(),
            t.wf(),
    {
        let t = WorkTree { entries: Vec::new() };
        assert(t@ =~= Seq::<PathState>::empty());
        t
    }

    /// The entries of the tree.
    pub fn entries(&self) -> (v: &Vec<TrackedPath>)
        ensures
            states(v@) == self@,
    {
        &self.entries
    }

    fn find(&self, path: &String) -> (r: Option<usize>)
        ensures
            match r {
                Some(i) => i < self@.len() && self@[i as int].path == path@,
                None => !knows(self@, path@),
            },
    {
        let n = self.entries.len();
        let mut i: usize = 0;
        while i < n
            invariant
                n == self.entries.len(),
                i <= n,
                forall|k: int| 0 <= k < i ==> (#[trigger] self@[k]).path != path@,
            decreases n - i,
        {
            if self.entries[i].path == *path {
                return Some(i);
            }
            i += 1;
        }
        None
    }

    /// The state of a path: its entry, or an entry without content if the
    /// tree does not know the path.
    pub fn lookup(&self, path: &String) -> (e: TrackedPath)
        requires
            self.wf(),
        ensures
            e@ == state_of(self@, path@),
    {
        match self.find(path) {
            Some(i) => {
                proof {
                    lemma_position_unique(self@, i as int);
                }
                self.entries[i].copy()
            },
            None => TrackedPath { path: path.clone(), head: None, index: None, work: None },
        }
    }

    /// Takes note of the state of one path, as found in the repository. The
    /// entry replaces what the tree knew of the path; an entry without
    /// content makes the tree forget the path. A path that is not relative
    /// is refused, and the tree stays as it was.
    pub fn record(&mut self, entry: TrackedPath) -> (accepted: bool)
        requires
            old(self).wf(),
        ensures
            final(self).wf(),
            accepted == relative(entry@.path),
            accepted ==> final(self)@ == recorded(old(self)@, entry@),
            !accepted ==> final(self)@ == old(self)@,
    {
        if !is_relative(&entry.path) {
            return false;
        }
        let ghost before = self@;
        let present = entry.is_present();
        match self.find(&entry.path) {
            Some(i) => {
                proof {
                    lemma_position_unique(before, i as int);
                }
                if present {
                    self.entries.set(i, entry);
                    assert(self@ =~= before.update(i as int, entry@));
                } else {
                    self.entries.remove(i);
                    assert(self@ =~= before.remove(i as int));
                }
            },
            None => {
                if present {
                    self.entries.push(entry);
                    assert(self@ =~= before.push(entry@));
                }
            },
        }
        true
    }

    /// Takes note that the working directory now holds `content` at `path`.
    /// Returns whether the path was accepted, as `record` does.
    pub fn write_file(&mut self, path: &String, content: u64) -> (accepted: bool)
        requires
            old(self).wf(),
        ensures
            final(self).wf(),
            accepted == relative(path@),
            accepted ==> final(self)@ == recorded(
                old(self)@,
                PathState { work: Some(content), ..state_of(old(self)@, path@) },
            ),
            !accepted ==> final(self)@ == old(self)@,
    {
        let known = self.lookup(path);
        self.record(
            TrackedPath { path: known.path, head: known.head, index: known.index, work: Some(content) },
        )
    }

    /// Takes note that the working directory no longer holds `path`.
    /// Returns whether the path was accepted, as `record` does.
    pub fn remove_file(&mut self, path: &String) -> (accepted: bool)
        requires
            old(self).wf(),
        ensures
            final(self).wf(),
            accepted == relative(path@),
            accepted ==> final(self)@ == recorded(
                old(self)@,
                PathState { work: None, ..state_of(old(self)@, path@) },
            ),
            !accepted ==> final(self)@ == old(self)@,
    {
        let known = self.lookup(path);
        self.record(TrackedPath { path: known.path, head: known.head, index: known.index, work: None })
    }

    fn paths_in(&self, c: Category) -> (v: Vec<String>)
        ensures
            views(v@) == select(self@, c),
    {
        let mut v: Vec<String> = Vec::new();
        let n = self.entries.len();
        let mut i: usize = 0;
        assert(self@.take(0) =~= Seq::<PathState>::empty());
        while i < n
            invariant
                n == self.entries.len(),
                i <= n,
                views(v@) == select(self@.take(i as int), c),
            decreases n - i,
        {
            let ghost prefix = self@.take(i as int);
            let ghost next = self@.take(i + 1);
            let ghost old_v = v@;
            assert(next.drop_last() =~= prefix);
            assert(next.last() == self@[i as int]);
            if self.entries[i].is_in(c) {
                v.push(self.entries[i].path.clone());
                assert(views(v@) =~= views(old_v).push(self@[i as int].path));
            }
            i += 1;
        }
        assert(self@.take(n as int) =~= self@);
        v
    }

    /// Enumerates the untracked, modified, staged and deleted paths.
    pub fn status(&self) -> (r: StatusReport)
        ensures
            views(r.untracked@) == select(self@, Category::Untracked),
            views(r.modified@) == select(self@, Category::Modified),
            views(r.staged@) == select(self@, Category::Staged),
            views(r.deleted@) == select(self@, Category::Deleted),
    {
        StatusReport {
            untracked: self.paths_in(Category::Untracked),
            modified: self.paths_in(Category::Modified),
            staged: self.paths_in(Category::Staged),
            deleted: self.paths_in(Category::Deleted),
        }
    }

    /// Whether the index differs from the last commit anywhere.
    pub fn has_staged_changes(&self) -> (r: bool)
        ensures
            r == has_staged(self@),
    {
        let n = self.entries.len();
        let mut i: usize = 0;
        while i < n
            invariant
                n == self.entries.len(),
                i <= n,
                forall|k: int| 0 <= k < i ==> !(#[trigger] self@[k]).staged(),
            decreases n - i,
        {
            if self.entries[i].is_in(Category::Staged) {
                assert(self@[i as int].staged());
                return true;
            }
            i += 1;
        }
        false
    }

    fn apply_move(&mut self, m: Move, target: Option<&String>)
        requires
            old(self).wf(),
        ensures
            final(self).wf(),
            final(self)@ == apply(
                old(self)@,
                m,
                match target {
                    Some(p) => Some(p@),
                    None => None,
                },
            ),
    {
        let ghost before = self@;
        let ghost aim: Option<Seq<char>> = match target {
            Some(p) => Some(p@),
            None => None,
        };
        let mut out: Vec<TrackedPath> = Vec::new();
        let n = self.entries.len();
        let mut i: usize = 0;
        assert(before.take(0) =~= Seq::<PathState>::empty());
        assert(states(out@) =~= Seq::<PathState>::empty());
        while i < n
            invariant
                n == self.entries.len(),
                i <= n,
                self@ == before,
                aim == match target {
                    Some(p) => Some(p@),
                    None => None,
                },
                states(out@) == apply(before.take(i as int), m, aim),
            decreases n - i,
        {
            let ghost prefix = before.take(i as int);
            let ghost next = before.take(i + 1);
            let ghost old_out = out@;
            assert(next.drop_last() =~= prefix);
            assert(next.last() == before[i as int]);
            let hit = match target {
                Some(p) => self.entries[i].path == *p,
                None => true,
            };
            assert(hit == aims_at(aim, before[i as int].path));
            let e = if hit {
                self.entries[i].moved(m)
            } else {
                self.entries[i].copy()
            };
            assert(e@ == before[i as int].stepped(m, aim));
            if e.is_present() {
                out.push(e);
                assert(states(out@) =~= states(old_out).push(e@));
            }
            i += 1;
        }
        assert(before.take(n as int) =~= before);
        proof {
            lemma_apply_wf(before, m, aim);
        }
        self.entries = out;
    }

    fn move_path(&mut self, m: Move, path: &String) -> (r: Result<(), CoreError>)
        requires
            old(self).wf(),
        ensures
            final(self).wf(),
            admits(old(self)@, m, path@) ==> r is Ok && final(self)@ == apply(
                old(self)@,
                m,
                Some(path@),
            ),
            !admits(old(self)@, m, path@) ==> r == Err::<(), CoreError>(CoreError::PathNotFound)
                && final(self)@ == old(self)@,
    {
        let admitted = match self.find(path) {
            Some(i) => {
                proof {
                    lemma_position_unique(self@, i as int);
                }
                self.entries[i].admits(m)
            },
            None => false,
        };
        if admitted {
            self.apply_move(m, Some(path));
            Ok(())
        } else {
            Err(CoreError::PathNotFound)
        }
    }

    /// Stages one path: the index takes the content of the working directory.
    /// Fails with `PathNotFound`, and changes nothing, if neither the working
    /// directory nor the index knows the path.
    pub fn stage(&mut self, path: &String) -> (r: Result<(), CoreError>)
        requires
            old(self).wf(),
        ensures
            final(self).wf(),
            admits(old(self)@, Move::Stage, path@) ==> r is Ok && final(self)@ == apply(
                old(self)@,
                Move::Stage,
                Some(path@),
            ),
            !admits(old(self)@, Move::Stage, path@) ==> r == Err::<(), CoreError>(
                CoreError::PathNotFound,
            ) && final(self)@ == old(self)@,
    {
        self.move_path(Move::Stage, path)
    }

    /// Unstages one path: the index takes the content of the last commit.
    /// Fails with `PathNotFound`, and changes nothing, if neither the index
    /// nor the last commit knows the path.
    pub fn unstage(&mut self, path: &String) -> (r: Result<(), CoreError>)
        requires
            old(self).wf(),
        ensures
            final(self).wf(),
            admits(old(self)@, Move::Unstage, path@) ==> r is Ok && final(self)@ == apply(
                old(self)@,
                Move::Unstage,
                Some(path@),
            ),
            !admits(old(self)@, Move::Unstage, path@) ==> r == Err::<(), CoreError>(
                CoreError::PathNotFound,
            ) && final(self)@ == old(self)@,
    {
        self.move_path(Move::Unstage, path)
    }

    /// Reverts one path: the working directory takes the content of the
    /// index, and what it held is lost. Fails with `PathNotFound`, and changes
    /// nothing, if neither the working directory nor the index knows the
    /// path.
    pub fn revert(&mut self, path: &String) -> (r: Result<(), CoreError>)
        requires
            old(self).wf(),
        ensures
            final(self).wf(),
            admits(old(self)@, Move::Revert, path@) ==> r is Ok && final(self)@ == apply(
                old(self)@,
                Move::Revert,
                Some(path@),
            ),
            !admits(old(self)@, Move::Revert, path@) ==> r == Err::<(), CoreError>(
                CoreError::PathNotFound,
            ) && final(self)@ == old(self)@,
    {
        self.move_path(Move::Revert, path)
    }

    /// Stages every path. Afterwards nothing is untracked, modified or
    /// deleted.
    pub fn stage_all(&mut self)
        requires
            old(self).wf(),
        ensures
            final(self).wf(),
            final(self)@ == apply(old(self)@, Move::Stage, None),
            select(final(self)@, Category::Untracked).len() == 0,
            select(final(self)@, Category::Modified).len() == 0,
            select(final(self)@, Category::Deleted).len() == 0,
    {
        proof {
            lemma_nothing_unstaged(self@, Move::Stage);
        }
        self.apply_move(Move::Stage, None);
    }

    /// Reverts every path: all unstaged changes are lost. Afterwards nothing
    /// is untracked, modified or deleted, and what was staged still is.
    pub fn revert_all(&mut self)
        requires
            old(self).wf(),
        ensures
            final(self).wf(),
            final(self)@ == apply(old(self)@, Move::Revert, None),
            select(final(self)@, Category::Untracked).len() == 0,
            select(final(self)@, Category::Modified).len() == 0,
            select(final(self)@, Category::Deleted).len() == 0,
            select(final(self)@, Category::Staged) == select(old(self)@, Category::Staged),
    {
        proof {
            lemma_nothing_unstaged(self@, Move::Revert);
            lemma_revert_keeps_staged(self@, None);
        }
        self.apply_move(Move::Revert, None);
    }

    /// Makes the index the last commit of every path. Afterwards nothing is
    /// staged.
    pub fn commit_index(&mut self)
        requires
            old(self).wf(),
        ensures
            final(self).wf(),
            final(self)@ == apply(old(self)@, Move::Commit, None),
            !has_staged(final(self)@),
    {
        proof {
            lemma_nothing_staged(self@);
        }
        self.apply_move(Move::Commit, None);
    }
}

} // verus!
