//! What a finished walk has found.
//!
//! The walk of the resolver is driven step by step: it names a directory,
//! is told what lies there, and goes on. This module runs those steps
//! against a model of the directories on disk and shows that a walk that
//! has come to its end reports exactly the directories with a repository
//! marker that lie within its depth.

use crate::resolver::{children_of, joined, PendingView, WalkView};
use vstd::prelude::*;

verus! {

/// What one readable directory holds.
pub struct Directory {
    /// Whether it holds a repository marker.
    pub has_marker: bool,
    /// The names of the directories in it.
    pub names: Seq<Seq<char>>,
}

/// The readable directories, by path. A path that is not in the map cannot
/// be read.
pub type Disk = Map<Seq<char>, Directory>;

/// A walk together with the directories that it has looked at so far.
pub struct Trace {
    pub walk: WalkView,
    pub seen: Seq<PendingView>,
}

/// Whether a walk from `base` comes to `dir` at `depth` levels below it:
/// through readable directories, by names other than that of the marker.
pub open spec fn reaches(disk: Disk, base: Seq<char>, dir: Seq<char>, depth: nat) -> bool
    decreases depth,
{
    if depth == 0 {
        dir == base
    } else {
        exists|parent: Seq<char>, name: Seq<char>|
            #![trigger joined(parent, name)]
            reaches(disk, base, parent, (depth - 1) as nat) && disk.dom().contains(parent)
                && disk[parent].names.contains(name) && name != ".git"@ && dir == joined(
                parent,
                name,
            )
    }
}

/// Whether `dir` is a repository root that a walk from `base` of depth
/// `max_depth` has to find.
pub open spec fn is_root_within(disk: Disk, base: Seq<char>, max_depth: nat, dir: Seq<char>) -> bool {
    exists|depth: nat|
        depth <= max_depth && #[trigger] reaches(disk, base, dir, depth) && disk.dom().contains(dir)
            && disk[dir].has_marker
}

/// The trace at the start of a walk from `base` of depth `max_depth`.
pub open spec fn started(base: Seq<char>, max_depth: nat) -> Trace {
    Trace {
        walk: WalkView {
            max_depth,
            pending: seq![PendingView { dir: base, depth: 0 }],
            roots: Seq::empty(),
        },
        seen: Seq::empty(),
    }
}

/// The trace after one more step: the walk takes its next directory and is
/// told what the disk holds there. A walk that is over stays as it is.
pub open spec fn stepped(t: Trace, disk: Disk) -> Trace {
    if t.walk.pending.len() == 0 {
        t
    } else {
        let at = t.walk.pending[0];
        let taken = WalkView { pending: t.walk.pending.drop_first(), ..t.walk };
        Trace {
            walk: if disk.dom().contains(at.dir) {
                taken.visited(at, disk[at.dir].has_marker, disk[at.dir].names)
            } else {
                taken
            },
            seen: t.seen.push(at),
        }
    }
}

/// The trace after `n` steps.
pub open spec fn after(t: Trace, disk: Disk, n: nat) -> Trace
    decreases n,
{
    if n == 0 {
        t
    } else {
        stepped(after(t, disk, (n - 1) as nat), disk)
    }
}

/// Whether the walk has looked at `p` or will.
pub open spec fn covers(t: Trace, p: PendingView) -> bool {
    t.seen.contains(p) || t.walk.pending.contains(p)
}

/// What holds of every trace of a walk from `base`.
pub open spec fn sound(t: Trace, disk: Disk, base: Seq<char>) -> bool {
    &&& forall|i: int|
        0 <= i < t.walk.pending.len() ==> (#[trigger] t.walk.pending[i]).depth <= t.walk.max_depth
            && reaches(disk, base, t.walk.pending[i].dir, t.walk.pending[i].depth)
    &&& forall|i: int|
        0 <= i < t.seen.len() ==> (#[trigger] t.seen[i]).depth <= t.walk.max_depth && reaches(
            disk,
            base,
            t.seen[i].dir,
            t.seen[i].depth,
        )
    &&& forall|i: int|
        0 <= i < t.walk.roots.len() ==> is_root_within(
            disk,
            base,
            t.walk.max_depth,
            #[trigger] t.walk.roots[i],
        )
    &&& covers(t, PendingView { dir: base, depth: 0 })
    &&& forall|i: int, name: Seq<char>|
        0 <= i < t.seen.len() && (#[trigger] t.seen[i]).depth < t.walk.max_depth
            && disk.dom().contains(t.seen[i].dir) && disk[t.seen[i].dir].names.contains(name)
            && name != ".git"@ ==> covers(
            t,
            PendingView { dir: #[trigger] joined(t.seen[i].dir, name), depth: t.seen[i].depth + 1 },
        )
    &&& forall|i: int|
        0 <= i < t.seen.len() && disk.dom().contains((#[trigger] t.seen[i]).dir)
            && disk[t.seen[i].dir].has_marker ==> t.walk.roots.contains(t.seen[i].dir)
}

/// The children of a directory are the entries of its listing, the marker
/// left out, one level down.
pub proof fn lemma_children(dir: Seq<char>, depth: nat, names: Seq<Seq<char>>)
    ensures
        forall|i: int|
            0 <= i < children_of(dir, depth, names).len() ==> exists|name: Seq<char>|
                names.contains(name) && name != ".git"@ && (#[trigger] children_of(
                    dir,
                    depth,
                    names,
                )[i]) == (PendingView { dir: #[trigger] joined(dir, name), depth: depth + 1 }),
        forall|name: Seq<char>|
            names.contains(name) && name != ".git"@ ==> children_of(dir, depth, names).contains(
                PendingView { dir: #[trigger] joined(dir, name), depth: depth + 1 },
            ),
    decreases names.len(),
{
    if names.len() > 0 {
        let rest = names.drop_last();
        lemma_children(dir, depth, rest);
        let a = children_of(dir, depth, names);
        let b = children_of(dir, depth, rest);
        assert forall|i: int| 0 <= i < a.len() implies exists|name: Seq<char>|
            names.contains(name) && name != ".git"@ && (#[trigger] a[i]) == (PendingView {
                dir: #[trigger] joined(dir, name),
                depth: depth + 1,
            }) by {
            if i < b.len() {
                assert(a[i] == b[i]);
                let name = choose|name: Seq<char>|
                    rest.contains(name) && name != ".git"@ && b[i] == (PendingView {
                        dir: #[trigger] joined(dir, name),
                        depth: depth + 1,
                    });
                let k = choose|k: int| 0 <= k < rest.len() && rest[k] == name;
                assert(names[k] == name);
            } else {
                assert(names[names.len() - 1] == names.last());
                assert(a[i] == (PendingView { dir: joined(dir, names.last()), depth: depth + 1 }));
            }
        }
        assert forall|name: Seq<char>| names.contains(name) && name != ".git"@ implies a.contains(
            PendingView { dir: #[trigger] joined(dir, name), depth: depth + 1 },
        ) by {
            let child = PendingView { dir: joined(dir, name), depth: depth + 1 };
            let k = choose|k: int| 0 <= k < names.len() && names[k] == name;
            if k < rest.len() {
                assert(rest[k] == name);
                let j = choose|j: int| 0 <= j < b.len() && b[j] == child;
                assert(a[j] == child);
            } else {
                assert(a[a.len() - 1] == child);
            }
        }
    }
}

proof fn lemma_covers_kept(t: Trace, disk: Disk, p: PendingView)
    requires
        covers(t, p),
    ensures
        covers(stepped(t, disk), p),
{
    let u = stepped(t, disk);
    if t.walk.pending.len() > 0 {
        let at = t.walk.pending[0];
        if t.seen.contains(p) {
            let k = choose|k: int| 0 <= k < t.seen.len() && t.seen[k] == p;
            assert(u.seen[k] == p);
        } else {
            let k = choose|k: int| 0 <= k < t.walk.pending.len() && t.walk.pending[k] == p;
            if k == 0 {
                assert(u.seen[u.seen.len() - 1] == p);
            } else {
                assert(t.walk.pending.drop_first()[k - 1] == p);
                assert(u.walk.pending[k - 1] == p);
            }
        }
    }
}

/// A step keeps a sound trace sound.
pub proof fn lemma_step_sound(t: Trace, disk: Disk, base: Seq<char>)
    requires
        sound(t, disk, base),
    ensures
        sound(stepped(t, disk), disk, base),
{
    let u = stepped(t, disk);
    if t.walk.pending.len() > 0 {
        let at = t.walk.pending[0];
        let rest = t.walk.pending.drop_first();
        let readable = disk.dom().contains(at.dir);
        let grows = readable && at.depth < t.walk.max_depth;
        let kids = if grows {
            children_of(at.dir, at.depth, disk[at.dir].names)
        } else {
            Seq::empty()
        };
        if readable {
            lemma_children(at.dir, at.depth, disk[at.dir].names);
        }
        assert(u.walk.pending =~= rest + kids);
        assert forall|i: int| 0 <= i < u.walk.pending.len() implies (
        #[trigger] u.walk.pending[i]).depth <= u.walk.max_depth && reaches(
            disk,
            base,
            u.walk.pending[i].dir,
            u.walk.pending[i].depth,
        ) by {
            if i < rest.len() {
                assert(u.walk.pending[i] == t.walk.pending[i + 1]);
            } else {
                let j = i - rest.len();
                assert(u.walk.pending[i] == kids[j]);
                let name = choose|name: Seq<char>|
                    disk[at.dir].names.contains(name) && name != ".git"@ && kids[j] == (PendingView {
                        dir: #[trigger] joined(at.dir, name),
                        depth: at.depth + 1,
                    });
                assert(reaches(disk, base, at.dir, at.depth));
                assert(reaches(disk, base, joined(at.dir, name), at.depth + 1));
            }
        }
        assert forall|i: int| 0 <= i < u.seen.len() implies (#[trigger] u.seen[i]).depth
            <= u.walk.max_depth && reaches(disk, base, u.seen[i].dir, u.seen[i].depth) by {
            if i < t.seen.len() {
                assert(u.seen[i] == t.seen[i]);
            } else {
                assert(u.seen[i] == t.walk.pending[0]);
            }
        }
        assert forall|i: int| 0 <= i < u.walk.roots.len() implies is_root_within(
            disk,
            base,
            u.walk.max_depth,
            #[trigger] u.walk.roots[i],
        ) by {
            if i < t.walk.roots.len() {
                assert(u.walk.roots[i] == t.walk.roots[i]);
            } else {
                assert(u.walk.roots[i] == at.dir);
                assert(reaches(disk, base, at.dir, at.depth));
            }
        }
        lemma_covers_kept(t, disk, PendingView { dir: base, depth: 0 });
        assert forall|i: int, name: Seq<char>|
            0 <= i < u.seen.len() && (#[trigger] u.seen[i]).depth < u.walk.max_depth
                && disk.dom().contains(u.seen[i].dir) && disk[u.seen[i].dir].names.contains(name)
                && name != ".git"@ implies covers(
            u,
            PendingView { dir: #[trigger] joined(u.seen[i].dir, name), depth: u.seen[i].depth + 1 },
        ) by {
            let child = PendingView { dir: joined(u.seen[i].dir, name), depth: u.seen[i].depth + 1 };
            if i < t.seen.len() {
                assert(u.seen[i] == t.seen[i]);
                lemma_covers_kept(t, disk, child);
            } else {
                assert(u.seen[i] == at);
                assert(kids.contains(child));
                let j = choose|j: int| 0 <= j < kids.len() && kids[j] == child;
                assert(u.walk.pending[rest.len() + j] == child);
            }
        }
        assert forall|i: int|
            0 <= i < u.seen.len() && disk.dom().contains((#[trigger] u.seen[i]).dir)
                && disk[u.seen[i].dir].has_marker implies u.walk.roots.contains(u.seen[i].dir) by {
            if i < t.seen.len() {
                assert(u.seen[i] == t.seen[i]);
                let k = choose|k: int| 0 <= k < t.walk.roots.len() && t.walk.roots[k] == t.seen[i].dir;
                assert(u.walk.roots[k] == t.seen[i].dir);
            } else {
                assert(u.seen[i] == at);
                assert(u.walk.roots[u.walk.roots.len() - 1] == at.dir);
            }
        }
    }
}

/// Every trace of a walk from its start is sound.
pub proof fn lemma_walk_sound(disk: Disk, base: Seq<char>, max_depth: nat, n: nat)
    ensures
        sound(after(started(base, max_depth), disk, n), disk, base),
        after(started(base, max_depth), disk, n).walk.max_depth == max_depth,
    decreases n,
{
    let t = started(base, max_depth);
    if n == 0 {
        assert(t.walk.pending[0] == (PendingView { dir: base, depth: 0 }));
        assert(reaches(disk, base, base, 0));
    } else {
        lemma_walk_sound(disk, base, max_depth, (n - 1) as nat);
        lemma_step_sound(after(t, disk, (n - 1) as nat), disk, base);
    }
}

proof fn lemma_all_seen(t: Trace, disk: Disk, base: Seq<char>, dir: Seq<char>, depth: nat)
    requires
        sound(t, disk, base),
        t.walk.pending.len() == 0,
        depth <= t.walk.max_depth,
        reaches(disk, base, dir, depth),
    ensures
        t.seen.contains(PendingView { dir, depth }),
    decreases depth,
{
    if depth == 0 {
        assert(covers(t, PendingView { dir: base, depth: 0 }));
    } else {
        let (parent, name) = choose|parent: Seq<char>, name: Seq<char>|
            #![trigger joined(parent, name)]
            reaches(disk, base, parent, (depth - 1) as nat) && disk.dom().contains(parent)
                && disk[parent].names.contains(name) && name != ".git"@ && dir == joined(
                parent,
                name,
            );
        lemma_all_seen(t, disk, base, parent, (depth - 1) as nat);
        let above = PendingView { dir: parent, depth: (depth - 1) as nat };
        let i = choose|i: int| 0 <= i < t.seen.len() && t.seen[i] == above;
        assert(t.seen[i].depth < t.walk.max_depth);
        assert(covers(t, PendingView { dir: joined(t.seen[i].dir, name), depth: t.seen[i].depth + 1 }));
    }
}

/// A walk that has come to its end has found exactly the repository roots
/// within its depth: every directory that it reports holds a marker and is
/// reached within the depth, and every such directory is reported.
pub proof fn lemma_finished_walk_is_exact(disk: Disk, base: Seq<char>, max_depth: nat, n: nat)
    requires
        after(started(base, max_depth), disk, n).walk.pending.len() == 0,
    ensures
        forall|dir: Seq<char>|
            after(started(base, max_depth), disk, n).walk.roots.contains(dir) <==> is_root_within(
                disk,
                base,
                max_depth,
                dir,
            ),
{
    let t = after(started(base, max_depth), disk, n);
    lemma_walk_sound(disk, base, max_depth, n);
    assert forall|dir: Seq<char>| t.walk.roots.contains(dir) <==> is_root_within(
        disk,
        base,
        max_depth,
        dir,
    ) by {
        if t.walk.roots.contains(dir) {
            let k = choose|k: int| 0 <= k < t.walk.roots.len() && t.walk.roots[k] == dir;
            assert(is_root_within(disk, base, max_depth, t.walk.roots[k]));
        }
        if is_root_within(disk, base, max_depth, dir) {
            let depth = choose|depth: nat|
                depth <= max_depth && #[trigger] reaches(disk, base, dir, depth)
                    && disk.dom().contains(dir) && disk[dir].has_marker;
            lemma_all_seen(t, disk, base, dir, depth);
            let i = choose|i: int| 0 <= i < t.seen.len() && t.seen[i] == (PendingView { dir, depth });
            assert(t.seen[i].dir == dir);
        }
    }
}

} // verus!
