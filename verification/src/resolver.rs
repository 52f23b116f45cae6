//! The repository resolver: from the base directory of a workspace to the
//! root of its repository, and the bounded walk that finds the repositories
//! below a directory.
//!
//! The resolver reads no directory itself. It names the directories to look
//! at, is told what was found there, and decides.

use crate::error::CoreError;
use crate::text::{to_chars, views};
use vstd::prelude::*;
use vstd::string::*;

verus! {

/// The index of the last slash of `p`, or -1 if it has none.
pub open spec fn last_slash(p: Seq<char>) -> int
    decreases p.len(),
{
    if p.len() == 0 {
        -1
    } else if p.last() == '/' {
        p.len() - 1
    } else {
        last_slash(p.drop_last())
    }
}

/// The directory that holds `p`: what stands before the last slash of `p`,
/// or the root `/` if that slash is the first character. The root itself and
/// a path without a slash have no parent.
pub open spec fn parent_of(p: Seq<char>) -> Option<Seq<char>> {
    let k = last_slash(p);
    if k < 0 || p.len() == 1 {
        None
    } else if k == 0 {
        Some(p.take(1))
    } else {
        Some(p.take(k))
    }
}

/// The last slash is a slash, and no slash follows it.
pub proof fn lemma_last_slash(p: Seq<char>)
    ensures
        -1 <= last_slash(p) < p.len(),
        last_slash(p) >= 0 ==> p[last_slash(p)] == '/',
        forall|j: int| last_slash(p) < j < p.len() ==> p[j] != '/',
    decreases p.len(),
{
    if p.len() > 0 && p.last() != '/' {
        let t = p.drop_last();
        lemma_last_slash(t);
        assert forall|j: int| last_slash(p) < j < p.len() implies p[j] != '/' by {
            if j < t.len() {
                assert(p[j] == t[j]);
            }
        }
        if last_slash(t) >= 0 {
            assert(p[last_slash(t)] == t[last_slash(t)]);
        }
    }
}

/// A parent is shorter than its child.
pub proof fn lemma_parent_shorter(p: Seq<char>)
    ensures
        parent_of(p) is Some ==> 0 < parent_of(p)->0.len() < p.len(),
{
    lemma_last_slash(p);
}

/// `p` and the directories above it, nearest first.
pub open spec fn ancestors_of(p: Seq<char>) -> Seq<Seq<char>>
    decreases p.len(),
    via ancestors_decrease
{
    match parent_of(p) {
        Some(q) => seq![p] + ancestors_of(q),
        None => seq![p],
    }
}

#[via_fn]
proof fn ancestors_decrease(p: Seq<char>) {
    lemma_parent_shorter(p);
}

/// What a look at one directory showed.
#[derive(Clone, Copy, Debug, PartialEq, Eq, Structural)]
pub enum Probe {
    /// The directory holds a repository marker.
    Marker,
    /// The directory holds no repository marker.
    NoMarker,
    /// The directory could not be read.
    Unreadable,
}

/// The nearest enclosing repository: the first directory of `chain` with a
/// marker, if the directories before it could all be read. A directory
/// without a probe is not looked at, nor are those after it.
pub open spec fn nearest_marked(chain: Seq<Seq<char>>, probes: Seq<Probe>) -> Result<
    Option<Seq<char>>,
    CoreError,
>
    decreases chain.len(),
{
    if chain.len() == 0 || probes.len() == 0 {
        Ok(None)
    } else {
        match probes[0] {
            Probe::Marker => Ok(Some(chain[0])),
            Probe::Unreadable => Err(CoreError::IoError),
            Probe::NoMarker => nearest_marked(chain.drop_first(), probes.drop_first()),
        }
    }
}

/// The root that a workspace resolves to: the nearest enclosing repository
/// if there is one, else the first repository found within the workspace.
pub open spec fn resolved(enclosing: Option<Seq<char>>, contained: Seq<Seq<char>>) -> Option<
    Seq<char>,
> {
    match enclosing {
        Some(root) => Some(root),
        None => if contained.len() > 0 {
            Some(contained[0])
        } else {
            None
        },
    }
}

/// Returns the directory that holds `path`, if it has one.
pub fn parent(path: &String) -> (r: Option<String>)
    ensures
        match parent_of(path@) {
            Some(q) => r is Some && r->0@ == q,
            None => r is None,
        },
{
    let v = to_chars(path.as_str());
    let n = v.len();
    let mut k: usize = n;
    assert(v@.take(n as int) =~= v@);
    while k > 0 && v[k - 1] != '/'
        invariant
            n == v.len(),
            k <= n,
            last_slash(v@) == last_slash(v@.take(k as int)),
        decreases k,
    {
        let ghost prefix = v@.take(k as int);
        assert(prefix.drop_last() =~= v@.take(k - 1));
        k -= 1;
    }
    if k == 0 {
        assert(v@.take(0).len() == 0);
        return None;
    }
    assert(v@.take(k as int).last() == v@[k - 1]);
    assert(last_slash(v@) == k - 1);
    if n == 1 {
        None
    } else if k == 1 {
        Some(path.as_str().substring_char(0, 1).to_owned())
    } else {
        Some(path.as_str().substring_char(0, k - 1).to_owned())
    }
}

/// Lists `base` and the directories above it, nearest first. These are the
/// places where an enclosing repository can lie.
pub fn ancestors(base: &String) -> (chain: Vec<String>)
    ensures
        views(chain@) == ancestors_of(base@),
{
    let mut chain: Vec<String> = Vec::new();
    let mut current = base.clone();
    let ghost mut done: Seq<Seq<char>> = Seq::empty();
    assert(done + ancestors_of(current@) =~= ancestors_of(base@));
    loop
        invariant
            views(chain@) == done,
            done + ancestors_of(current@) == ancestors_of(base@),
        decreases current@.len(),
    {
        let next = parent(&current);
        proof {
            lemma_parent_shorter(current@);
        }
        let ghost before = chain@;
        let ghost here = current@;
        match next {
            Some(q) => {
                chain.push(current);
                proof {
                    assert(views(chain@) =~= done.push(here));
                    assert(done.push(here) + ancestors_of(q@) =~= done + (seq![here] + ancestors_of(
                        q@,
                    )));
                    done = done.push(here);
                }
                current = q;
            },
            None => {
                chain.push(current);
                proof {
                    assert(views(chain@) =~= done + seq![here]);
                }
                return chain;
            },
        }
    }
}

/// Picks the nearest enclosing repository: the first directory of `chain`
/// that was found to hold a repository marker. Fails with `IoError` if a
/// directory nearer than that could not be read.
pub fn nearest_enclosing(chain: &Vec<String>, probes: &Vec<Probe>) -> (r: Result<
    Option<String>,
    CoreError,
>)
    ensures
        match nearest_marked(views(chain@), probes@) {
            Ok(Some(root)) => r is Ok && r->Ok_0 is Some && r->Ok_0->0@ == root,
            Ok(None) => r is Ok && r->Ok_0 is None,
            Err(e) => r is Err && r->Err_0 == e,
        },
{
    let ghost all = views(chain@);
    let n = if chain.len() <= probes.len() {
        chain.len()
    } else {
        probes.len()
    };
    let mut i: usize = 0;
    assert(all.skip(0) =~= all);
    assert(probes@.skip(0) =~= probes@);
    while i < n
        invariant
            n <= chain.len(),
            n <= probes.len(),
            n == chain.len() || n == probes.len(),
            i <= n,
            all == views(chain@),
            nearest_marked(all, probes@) == nearest_marked(
                all.skip(i as int),
                probes@.skip(i as int),
            ),
        decreases n - i,
    {
        let ghost rest = all.skip(i as int);
        let ghost rest_probes = probes@.skip(i as int);
        assert(rest.drop_first() =~= all.skip(i + 1));
        assert(rest_probes.drop_first() =~= probes@.skip(i + 1));
        assert(rest[0] == chain@[i as int]@);
        assert(rest_probes[0] == probes@[i as int]);
        match probes[i] {
            Probe::Marker => {
                return Ok(Some(chain[i].clone()));
            },
            Probe::Unreadable => {
                return Err(CoreError::IoError);
            },
            Probe::NoMarker => {},
        }
        i += 1;
    }
    assert(all.skip(n as int).len() == 0 || probes@.skip(n as int).len() == 0);
    Ok(None)
}

/// Resolves a workspace to the root of its repository: the nearest
/// enclosing repository if there is one, else the first repository found
/// within the workspace. Fails with `NotFound` if there is neither.
pub fn resolve_root(enclosing: Option<String>, contained: &Vec<String>) -> (r: Result<
    String,
    CoreError,
>)
    ensures
        match resolved(
            match enclosing {
                Some(e) => Some(e@),
                None => None,
            },
            views(contained@),
        ) {
            Some(root) => r is Ok && r->Ok_0@ == root,
            None => r == Err::<String, CoreError>(CoreError::NotFound),
        },
{
    match enclosing {
        Some(root) => Ok(root),
        None => {
            if contained.len() > 0 {
                assert(views(contained@)[0] == contained@[0]@);
                Ok(contained[0].clone())
            } else {
                Err(CoreError::NotFound)
            }
        },
    }
}

/// How many levels below the workspace are searched for repositories when
/// the caller names no depth.
pub const DEFAULT_ROOT_DEPTH: usize = 2;

/// A directory that the walk has yet to look at, and how many levels below
/// the base it lies.
#[derive(Clone, Debug, PartialEq, Eq)]
pub struct Pending {
    pub dir: String,
    pub depth: usize,
}

/// The mathematical model of a [`Pending`].
pub struct PendingView {
    pub dir: Seq<char>,
    pub depth: nat,
}

impl View for Pending {
    type V = PendingView;

    open spec fn view(&self) -> PendingView {
        PendingView { dir: self.dir@, depth: self.depth as nat }
    }
}

/// What was found in one directory.
#[derive(Clone, Debug, PartialEq, Eq)]
pub struct Listing {
    /// Whether the directory holds a repository marker.
    pub has_marker: bool,
    /// The names of the directories in it.
    pub subdirs: Vec<String>,
}

/// The model of every pending directory of a sequence, in order.
pub open spec fn pending_views(v: Seq<Pending>) -> Seq<PendingView> {
    Seq::new(v.len(), |i: int| v[i]@)
}

/// The path of the entry `name` in the directory `dir`.
pub open spec fn joined(dir: Seq<char>, name: Seq<char>) -> Seq<char> {
    if dir.len() > 0 && dir.last() == '/' {
        dir + name
    } else {
        dir + seq!['/'] + name
    }
}

/// The directories to look at below `dir`, which lies `depth` levels below
/// the base: one for every name but that of the repository marker, in order.
pub open spec fn children_of(dir: Seq<char>, depth: nat, names: Seq<Seq<char>>) -> Seq<PendingView>
    decreases names.len(),
{
    if names.len() == 0 {
        Seq::empty()
    } else if names.last() == ".git"@ {
        children_of(dir, depth, names.drop_last())
    } else {
        children_of(dir, depth, names.drop_last()).push(
            PendingView { dir: joined(dir, names.last()), depth: depth + 1 },
        )
    }
}

/// The state of a walk.
pub struct WalkView {
    /// How many levels below the base the walk goes.
    pub max_depth: nat,
    /// The directories yet to look at, in the order in which they come up.
    pub pending: Seq<PendingView>,
    /// The repository roots found so far, in the order in which they were
    /// found.
    pub roots: Seq<Seq<char>>,
}

impl WalkView {
    /// The walk after the directory `at` was looked at and `listing` found
    /// there: a directory with a marker is a root; and unless `at` lies at
    /// the greatest depth, its directories are looked at later.
    pub open spec fn visited(self, at: PendingView, has_marker: bool, names: Seq<Seq<char>>) -> WalkView {
        WalkView {
            max_depth: self.max_depth,
            pending: if at.depth < self.max_depth {
                self.pending + children_of(at.dir, at.depth, names)
            } else {
                self.pending
            },
            roots: if has_marker {
                self.roots.push(at.dir)
            } else {
                self.roots
            },
        }
    }

    /// The invariant of a walk: no directory yet to look at lies deeper than
    /// the walk goes.
    pub open spec fn wf(self) -> bool {
        forall|i: int| 0 <= i < self.pending.len() ==> (#[trigger] self.pending[i]).depth <= self.max_depth
    }
}

/// Every child lies one level below its parent.
pub proof fn lemma_children_depth(dir: Seq<char>, depth: nat, names: Seq<Seq<char>>)
    ensures
        forall|i: int|
            0 <= i < children_of(dir, depth, names).len() ==> (#[trigger] children_of(
                dir,
                depth,
                names,
            )[i]).depth == depth + 1,
    decreases names.len(),
{
    if names.len() > 0 {
        lemma_children_depth(dir, depth, names.drop_last());
        let a = children_of(dir, depth, names);
        let b = children_of(dir, depth, names.drop_last());
        assert forall|i: int| 0 <= i < a.len() implies (#[trigger] a[i]).depth == depth + 1 by {
            if i < b.len() {
                assert(a[i] == b[i]);
            }
        }
    }
}

/// A bounded walk over the directories below a base, in search of
/// repository roots. Directories come up level by level.
#[derive(Clone, Debug)]
pub struct RootWalk {
    max_depth: usize,
    queue: Vec<Pending>,
    taken: usize,
    roots: Vec<String>,
}

impl View for RootWalk {
    type V = WalkView;

    closed spec fn view(&self) -> WalkView {
        WalkView {
            max_depth: self.max_depth as nat,
            pending: pending_views(self.queue@).skip(self.taken as int),
            roots: views(self.roots@),
        }
    }
}

/// Builds the path of the entry `name` in the directory `dir`.
pub fn join(dir: &String, name: &String) -> (r: String)
    ensures
        r@ == joined(dir@, name@),
{
    let v = to_chars(dir.as_str());
    let mut r = dir.clone();
    if v.len() == 0 || v[v.len() - 1] != '/' {
        proof {
            reveal_strlit("/");
        }
        r.append("/");
        assert(r@ =~= dir@ + seq!['/']);
    }
    r.append(name.as_str());
    r
}

impl RootWalk {
    /// The invariant of the walk.
    pub closed spec fn wf(&self) -> bool {
        &&& self.taken <= self.queue@.len()
        &&& self@.wf()
    }

    /// Starts a walk at `base` that goes `depth` levels down, or
    /// `DEFAULT_ROOT_DEPTH` levels if no depth is given. The base is the one
    /// directory to look at.
    pub fn start(base: &String, depth: Option<usize>) -> (w: RootWalk)
        ensures
            w.wf(),
            w@ == (WalkView {
                max_depth: match depth {
                    Some(d) => d as nat,
                    None => DEFAULT_ROOT_DEPTH as nat,
                },
                pending: seq![PendingView { dir: base@, depth: 0 }],
                roots: Seq::empty(),
            }),
    {
        let mut queue: Vec<Pending> = Vec::new();
        queue.push(Pending { dir: base.clone(), depth: 0 });
        let w = RootWalk {
            max_depth: match depth {
                Some(d) => d,
                None => DEFAULT_ROOT_DEPTH,
            },
            queue,
            taken: 0,
            roots: Vec::new(),
        };
        assert(w@.pending =~= seq![PendingView { dir: base@, depth: 0 }]);
        assert(w@.roots =~= Seq::<Seq<char>>::empty());
        w
    }

    /// Takes the next directory to look at, or returns `None` when the walk
    /// is over.
    pub fn next_directory(&mut self) -> (r: Option<Pending>)
        requires
            old(self).wf(),
        ensures
            final(self).wf(),
            old(self)@.pending.len() == 0 ==> r is None && final(self)@ == old(self)@,
            old(self)@.pending.len() > 0 ==> r is Some && r->0@ == old(self)@.pending[0]
                && final(self)@ == (WalkView {
                pending: old(self)@.pending.drop_first(),
                ..old(self)@
            }),
            r is Some ==> r->0@.depth <= old(self)@.max_depth,
    {
        if self.taken >= self.queue.len() {
            return None;
        }
        let ghost before = self@;
        let p = &self.queue[self.taken];
        let r = Pending { dir: p.dir.clone(), depth: p.depth };
        assert(r@ == before.pending[0]);
        self.taken = self.taken + 1;
        assert(self@.pending =~= before.pending.drop_first());
        assert forall|i: int| 0 <= i < self@.pending.len() implies (#[trigger] self@.pending[i]).depth
            <= self@.max_depth by {
            assert(self@.pending[i] == before.pending[i + 1]);
        }
        Some(r)
    }

    /// Takes note of what was found in the directory `at`. A directory that
    /// could not be read is skipped: the walk stays as it was. Otherwise the
    /// walk goes on as `visited` says.
    pub fn visit(&mut self, at: &Pending, listing: Result<Listing, CoreError>)
        requires
            old(self).wf(),
        ensures
            final(self).wf(),
            match listing {
                Ok(l) => final(self)@ == old(self)@.visited(at@, l.has_marker, views(l.subdirs@)),
                Err(_) => final(self)@ == old(self)@,
            },
    {
        let l = match listing {
            Ok(l) => l,
            Err(_) => {
                return ;
            },
        };
        let ghost before = self@;
        let ghost names = views(l.subdirs@);
        if l.has_marker {
            let ghost roots = self.roots@;
            self.roots.push(at.dir.clone());
            assert(views(self.roots@) =~= views(roots).push(at@.dir));
        }
        if at.depth < self.max_depth {
            let marker = String::from_str(".git");
            let n = l.subdirs.len();
            let mut i: usize = 0;
            assert(names.take(0) =~= Seq::<Seq<char>>::empty());
            assert(before.pending + Seq::<PendingView>::empty() =~= before.pending);
            while i < n
                invariant
                    n == l.subdirs.len(),
                    i <= n,
                    names == views(l.subdirs@),
                    marker@ == ".git"@,
                    at.depth < self.max_depth,
                    self.taken <= self.queue@.len(),
                    self@.max_depth == before.max_depth,
                    self@.roots == before.visited(at@, l.has_marker, names).roots,
                    self@.pending == before.pending + children_of(
                        at@.dir,
                        at@.depth,
                        names.take(i as int),
                    ),
                decreases n - i,
            {
                let ghost upto = names.take(i + 1);
                let ghost queued = self@.pending;
                assert(upto.drop_last() =~= names.take(i as int));
                assert(upto.last() == l.subdirs@[i as int]@);
                if l.subdirs[i] != marker {
                    let child = Pending { dir: join(&at.dir, &l.subdirs[i]), depth: at.depth + 1 };
                    self.queue.push(child);
                    assert(self@.pending =~= queued.push(child@));
                    assert(self@.pending =~= before.pending + children_of(
                        at@.dir,
                        at@.depth,
                        upto,
                    ));
                }
                i += 1;
            }
            assert(names.take(n as int) =~= names);
            proof {
                lemma_children_depth(at@.dir, at@.depth, names);
                let kids = children_of(at@.dir, at@.depth, names);
                assert forall|k: int| 0 <= k < self@.pending.len() implies (
                #[trigger] self@.pending[k]).depth <= self@.max_depth by {
                    if k < before.pending.len() {
                        assert(self@.pending[k] == before.pending[k]);
                    } else {
                        assert(self@.pending[k] == kids[k - before.pending.len()]);
                    }
                }
            }
        }
    }

    /// Whether no directory is left to look at.
    pub fn is_done(&self) -> (r: bool)
        requires
            self.wf(),
        ensures
            r == (self@.pending.len() == 0),
    {
        self.taken >= self.queue.len()
    }

    /// Ends the walk and returns the repository roots found, in the order in
    /// which they were found.
    pub fn into_roots(self) -> (roots: Vec<String>)
        ensures
            views(roots@) == self@.roots,
    {
        self.roots
    }
}

} // verus!
