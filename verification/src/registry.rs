//! The workspace registry: which repository root each workspace resolved to,
//! what is cached for it, and who may work on it right now.
//!
//! Every operation on a workspace takes its guard first: shared for an
//! operation that only reads, exclusive for one that changes the repository.
//! Exclusion goes by repository root, so two workspaces that resolved to the
//! same root exclude each other as one workspace excludes itself. The
//! registry is a plain value; whoever shares it between tasks wraps it in a
//! lock, and a task that is refused a guard waits and asks again.

use crate::error::CoreError;
use vstd::prelude::*;
use vstd::string::*;

verus! {

/// How an operation holds the guard of a workspace.
#[derive(Clone, Copy, Debug, PartialEq, Eq, Structural)]
pub enum Access {
    /// Together with other readers.
    Shared,
    /// Alone.
    Exclusive,
}

/// The operations that the core offers on a workspace.
#[derive(Clone, Copy, Debug, PartialEq, Eq, Structural)]
pub enum Operation {
    Status,
    StageFile,
    StageAll,
    UnstageFile,
    RevertFile,
    RevertAll,
    Commit,
    Push,
    Pull,
    Fetch,
    Sync,
    ListRoots,
    WorkspaceDiff,
    Diffs,
    Log,
    CommitDiff,
    Remote,
    Issues,
    PullRequests,
    PullRequestDiff,
    PullRequestComments,
    ListBranches,
    CheckoutBranch,
    CreateBranch,
}

impl Operation {
    /// Whether the operation changes the repository: staging, unstaging,
    /// reverting, committing, creating or checking out a branch, and every
    /// exchange with the remote.
    pub open spec fn mutates(self) -> bool {
        match self {
            Operation::StageFile => true,
            Operation::StageAll => true,
            Operation::UnstageFile => true,
            Operation::RevertFile => true,
            Operation::RevertAll => true,
            Operation::Commit => true,
            Operation::Push => true,
            Operation::Pull => true,
            Operation::Fetch => true,
            Operation::Sync => true,
            Operation::CheckoutBranch => true,
            Operation::CreateBranch => true,
            _ => false,
        }
    }

    /// Whether the cached remote is stale after the operation: after a
    /// change of branch and after an exchange with the remote.
    pub open spec fn stales_remote(self) -> bool {
        match self {
            Operation::Push => true,
            Operation::Pull => true,
            Operation::Fetch => true,
            Operation::Sync => true,
            Operation::CheckoutBranch => true,
            Operation::CreateBranch => true,
            _ => false,
        }
    }

    /// The access that the operation needs.
    pub open spec fn access_spec(self) -> Access {
        if self.mutates() {
            Access::Exclusive
        } else {
            Access::Shared
        }
    }

    /// Returns the access that the operation needs: exclusive if it changes
    /// the repository, shared if it only reads.
    pub fn access(self) -> (a: Access)
        ensures
            a == self.access_spec(),
    {
        match self {
            Operation::StageFile => Access::Exclusive,
            Operation::StageAll => Access::Exclusive,
            Operation::UnstageFile => Access::Exclusive,
            Operation::RevertFile => Access::Exclusive,
            Operation::RevertAll => Access::Exclusive,
            Operation::Commit => Access::Exclusive,
            Operation::Push => Access::Exclusive,
            Operation::Pull => Access::Exclusive,
            Operation::Fetch => Access::Exclusive,
            Operation::Sync => Access::Exclusive,
            Operation::CheckoutBranch => Access::Exclusive,
            Operation::CreateBranch => Access::Exclusive,
            _ => Access::Shared,
        }
    }

    /// Returns whether the cached remote is stale after the operation.
    pub fn invalidates_remote(self) -> (r: bool)
        ensures
            r == self.stales_remote(),
    {
        match self {
            Operation::Push => true,
            Operation::Pull => true,
            Operation::Fetch => true,
            Operation::Sync => true,
            Operation::CheckoutBranch => true,
            Operation::CreateBranch => true,
            _ => false,
        }
    }
}

/// What the registry holds for one workspace.
#[derive(Clone, Debug, PartialEq, Eq)]
pub struct WorkspaceEntry {
    pub id: String,
    /// The repository root that the workspace resolved to.
    pub root: String,
    /// How many operations hold the guard shared.
    pub readers: usize,
    /// Whether an operation holds the guard exclusively.
    pub writer: bool,
    /// The remote URL found last, until it goes stale.
    pub cached_remote: Option<String>,
}

/// The mathematical model of a [`WorkspaceEntry`].
pub struct EntryView {
    pub id: Seq<char>,
    pub root: Seq<char>,
    pub readers: nat,
    pub writer: bool,
    pub cached_remote: Option<Seq<char>>,
}

impl View for WorkspaceEntry {
    type V = EntryView;

    open spec fn view(&self) -> EntryView {
        EntryView {
            id: self.id@,
            root: self.root@,
            readers: self.readers as nat,
            writer: self.writer,
            cached_remote: match self.cached_remote {
                Some(u) => Some(u@),
                None => None,
            },
        }
    }
}

impl EntryView {
    /// Whether any operation holds the guard.
    pub open spec fn held(self) -> bool {
        self.writer || self.readers > 0
    }

    /// Whether the guard held in this entry stands in the way of `access` to
    /// the same root.
    pub open spec fn bars(self, access: Access) -> bool {
        match access {
            Access::Shared => self.writer,
            Access::Exclusive => self.held(),
        }
    }

    /// This entry with the guard taken once more.
    pub open spec fn taken(self, access: Access) -> EntryView {
        match access {
            Access::Shared => EntryView { readers: self.readers + 1, ..self },
            Access::Exclusive => EntryView { writer: true, ..self },
        }
    }

    /// Whether the guard is held in the way of `access`.
    pub open spec fn holds(self, access: Access) -> bool {
        match access {
            Access::Shared => self.readers > 0,
            Access::Exclusive => self.writer,
        }
    }

    /// This entry with the guard given back once.
    pub open spec fn given_back(self, access: Access) -> EntryView {
        match access {
            Access::Shared => EntryView { readers: (self.readers - 1) as nat, ..self },
            Access::Exclusive => EntryView { writer: false, ..self },
        }
    }
}

/// The model of every entry of a sequence, in order.
pub open spec fn entry_views(v: Seq<WorkspaceEntry>) -> Seq<EntryView> {
    Seq::new(v.len(), |i: int| v[i]@)
}

/// The invariant of the registry: no workspace occurs twice; and where an
/// operation holds a root exclusively, no other operation holds that root,
/// through the same workspace or through another.
pub open spec fn registry_wf(s: Seq<EntryView>) -> bool {
    &&& forall|i: int, j: int| 0 <= i < j < s.len() ==> (#[trigger] s[i]).id != (#[trigger] s[j]).id
    &&& forall|i: int| 0 <= i < s.len() ==> !((#[trigger] s[i]).writer && s[i].readers > 0)
    &&& forall|i: int, j: int|
        0 <= i < s.len() && 0 <= j < s.len() && i != j && (#[trigger] s[i]).root == (
        #[trigger] s[j]).root && s[i].writer ==> !s[j].held()
}

/// Whether the registry has an entry for the workspace `id`.
pub open spec fn known(s: Seq<EntryView>, id: Seq<char>) -> bool {
    exists|i: int| 0 <= i < s.len() && (#[trigger] s[i]).id == id
}

/// The place of the workspace `id` in the registry, if the registry knows it.
pub open spec fn place_of(s: Seq<EntryView>, id: Seq<char>) -> int {
    choose|i: int| 0 <= i < s.len() && (#[trigger] s[i]).id == id
}

/// Whether some guard on `root` stands in the way of `access`.
pub open spec fn barred(s: Seq<EntryView>, root: Seq<char>, access: Access) -> bool {
    exists|j: int| 0 <= j < s.len() && (#[trigger] s[j]).root == root && s[j].bars(access)
}

/// Whether the guard of the workspace `id` can be taken for `access` now.
pub open spec fn grantable(s: Seq<EntryView>, id: Seq<char>, access: Access) -> bool {
    &&& known(s, id)
    &&& !barred(s, s[place_of(s, id)].root, access)
    &&& access == Access::Shared ==> s[place_of(s, id)].readers < usize::MAX
}

/// The registry after the guard of the workspace `id` was taken.
pub open spec fn granted(s: Seq<EntryView>, id: Seq<char>, access: Access) -> Seq<EntryView> {
    s.update(place_of(s, id), s[place_of(s, id)].taken(access))
}

/// Whether the guard of the workspace `id` is held in the way of `access`.
pub open spec fn holding(s: Seq<EntryView>, id: Seq<char>, access: Access) -> bool {
    known(s, id) && s[place_of(s, id)].holds(access)
}

/// The registry after the guard of the workspace `id` was given back.
pub open spec fn released(s: Seq<EntryView>, id: Seq<char>, access: Access) -> Seq<EntryView> {
    s.update(place_of(s, id), s[place_of(s, id)].given_back(access))
}

/// The registry with the cached remote of the workspace `id` set to `url`.
pub open spec fn with_remote(s: Seq<EntryView>, id: Seq<char>, url: Option<Seq<char>>) -> Seq<
    EntryView,
> {
    s.update(place_of(s, id), EntryView { cached_remote: url, ..s[place_of(s, id)] })
}

/// In a well-formed registry a workspace stands at one place only.
pub proof fn lemma_place_unique(s: Seq<EntryView>, i: int)
    requires
        registry_wf(s),
        0 <= i < s.len(),
    ensures
        known(s, s[i].id),
        place_of(s, s[i].id) == i,
{
    let p = place_of(s, s[i].id);
    assert(0 <= p < s.len() && s[p].id == s[i].id);
    if p < i {
        assert(s[p].id != s[i].id);
    }
    if i < p {
        assert(s[i].id != s[p].id);
    }
}

/// While an operation holds a root exclusively, no other operation holds
/// that root: not through the same workspace, and not through another
/// workspace that resolved to the same root.
pub proof fn lemma_exclusive_is_alone(s: Seq<EntryView>, i: int, j: int)
    requires
        registry_wf(s),
        0 <= i < s.len(),
        0 <= j < s.len(),
        s[i].root == s[j].root,
        s[i].writer,
    ensures
        s[j].readers == 0,
        i != j ==> !s[j].writer,
{
    if i != j {
        assert(!s[j].held());
    }
}

/// While a guard on a root is held, no exclusive guard on that root is
/// granted; while an exclusive guard is held, no guard at all.
pub proof fn lemma_held_root_bars(s: Seq<EntryView>, i: int, id: Seq<char>, access: Access)
    requires
        registry_wf(s),
        0 <= i < s.len(),
        known(s, id),
        s[place_of(s, id)].root == s[i].root,
        s[i].bars(access),
    ensures
        !grantable(s, id, access),
{
    assert(barred(s, s[i].root, access));
}

/// Taking a guard that can be granted keeps the invariant.
pub proof fn lemma_granted_wf(s: Seq<EntryView>, id: Seq<char>, access: Access)
    requires
        registry_wf(s),
        grantable(s, id, access),
    ensures
        registry_wf(granted(s, id, access)),
{
    let p = place_of(s, id);
    let t = granted(s, id, access);
    assert forall|i: int, j: int| 0 <= i < j < t.len() implies (#[trigger] t[i]).id != (
    #[trigger] t[j]).id by {
        assert(s[i].id != s[j].id);
    }
    assert forall|i: int| 0 <= i < t.len() implies !((#[trigger] t[i]).writer && t[i].readers
        > 0) by {
        assert(!(s[i].writer && s[i].readers > 0));
        if i == p {
            assert(!s[p].bars(access));
        }
    }
    assert forall|i: int, j: int|
        0 <= i < t.len() && 0 <= j < t.len() && i != j && (#[trigger] t[i]).root == (
        #[trigger] t[j]).root && t[i].writer implies !t[j].held() by {
        if i == p {
            assert(!s[j].bars(access));
            if s[i].writer {
                assert(!s[j].held());
            }
        } else if j == p {
            assert(!s[i].bars(access));
        } else {
            assert(!s[j].held());
        }
    }
}

/// Giving a guard back keeps the invariant.
pub proof fn lemma_released_wf(s: Seq<EntryView>, id: Seq<char>, access: Access)
    requires
        registry_wf(s),
        holding(s, id, access),
    ensures
        registry_wf(released(s, id, access)),
{
    let p = place_of(s, id);
    let t = released(s, id, access);
    assert forall|i: int, j: int| 0 <= i < j < t.len() implies (#[trigger] t[i]).id != (
    #[trigger] t[j]).id by {
        assert(s[i].id != s[j].id);
    }
    assert forall|i: int| 0 <= i < t.len() implies !((#[trigger] t[i]).writer && t[i].readers
        > 0) by {
        assert(!(s[i].writer && s[i].readers > 0));
    }
    assert forall|i: int, j: int|
        0 <= i < t.len() && 0 <= j < t.len() && i != j && (#[trigger] t[i]).root == (
        #[trigger] t[j]).root && t[i].writer implies !t[j].held() by {
        assert(s[i].writer);
        assert(!s[j].held());
    }
}

/// Giving back a guard that was just taken restores the registry.
pub proof fn lemma_release_undoes_grant(s: Seq<EntryView>, id: Seq<char>, access: Access)
    requires
        registry_wf(s),
        grantable(s, id, access),
    ensures
        holding(granted(s, id, access), id, access),
        released(granted(s, id, access), id, access) == s,
{
    let p = place_of(s, id);
    let t = granted(s, id, access);
    lemma_granted_wf(s, id, access);
    assert(t[p].id == id);
    lemma_place_unique(t, p);
    assert(!s[p].bars(access));
    assert(!(s[p].writer && s[p].readers > 0));
    assert(t[p].given_back(access) == s[p]);
    assert(released(t, id, access) =~= s);
}

/// The workspaces of one process.
#[derive(Clone, Debug)]
pub struct Registry {
    entries: Vec<WorkspaceEntry>,
}

impl View for Registry {
    type V = Seq<EntryView>;

    closed spec fn view(&self) -> Seq<EntryView> {
        entry_views(self.entries@)
    }
}

fn copy_text(s: &Option<String>) -> (r: Option<String>)
    ensures
        match s {
            Some(u) => r is Some && r->0@ == u@,
            None => r is None,
        },
{
    match s {
        Some(u) => Some(u.clone()),
        None => None,
    }
}

impl Registry {
    /// The invariant of the registry.
    pub open spec fn wf(&self) -> bool {
        registry_wf(self@)
    }

    /// A registry without workspaces.
    pub fn new() -> (r: Registry)
        ensures
            r@ == Seq::<EntryView>::empty(),
            r.wf(),
    {
        let r = Registry { entries: Vec::new() };
        assert(r@ =~= Seq::<EntryView>::empty());
        r
    }

    /// The entries of the registry.
    pub fn entries(&self) -> (v: &Vec<WorkspaceEntry>)
        ensures
            entry_views(v@) == self@,
    {
        &self.entries
    }

    fn find(&self, id: &String) -> (r: Option<usize>)
        requires
            self.wf(),
        ensures
            match r {
                Some(i) => known(self@, id@) && i as int == place_of(self@, id@) && i < self@.len(),
                None => !known(self@, id@),
            },
    {
        let n = self.entries.len();
        let mut i: usize = 0;
        while i < n
            invariant
                n == self.entries.len(),
                i <= n,
                self.wf(),
                forall|k: int| 0 <= k < i ==> (#[trigger] self@[k]).id != id@,
            decreases n - i,
        {
            if self.entries[i].id == *id {
                proof {
                    lemma_place_unique(self@, i as int);
                }
                return Some(i);
            }
            i += 1;
        }
        None
    }

    fn replace(&mut self, i: usize, readers: usize, writer: bool, cached_remote: Option<String>)
        requires
            i < old(self)@.len(),
        ensures
            final(self)@ == old(self)@.update(
                i as int,
                EntryView {
                    readers: readers as nat,
                    writer,
                    cached_remote: match cached_remote {
                        Some(u) => Some(u@),
                        None => None,
                    },
                    ..old(self)@[i as int]
                },
            ),
    {
        let ghost before = self@;
        let e = &self.entries[i];
        assert(e@ == before[i as int]);
        let entry = WorkspaceEntry {
            id: e.id.clone(),
            root: e.root.clone(),
            readers,
            writer,
            cached_remote,
        };
        self.entries.set(i, entry);
        assert(self@ =~= before.update(i as int, entry@));
    }

    /// Returns the repository root cached for the workspace, if the registry
    /// knows the workspace.
    pub fn root_of(&self, id: &String) -> (root: Option<String>)
        requires
            self.wf(),
        ensures
            match root {
                Some(r) => known(self@, id@) && r@ == self@[place_of(self@, id@)].root,
                None => !known(self@, id@),
            },
    {
        match self.find(id) {
            Some(i) => Some(self.entries[i].root.clone()),
            None => None,
        }
    }

    /// Returns the root of the workspace, creating its entry on first access.
    /// A workspace that the registry knows keeps its cached root, and `root`
    /// is not looked at; an unknown one joins the registry with `root`, a
    /// free guard and no cached remote.
    pub fn get_or_create(&mut self, id: &String, root: &String) -> (r: String)
        requires
            old(self).wf(),
        ensures
            final(self).wf(),
            known(old(self)@, id@) ==> final(self)@ == old(self)@ && r@ == old(self)@[place_of(
                old(self)@,
                id@,
            )].root,
            !known(old(self)@, id@) ==> r@ == root@ && final(self)@ == old(self)@.push(
                EntryView { id: id@, root: root@, readers: 0, writer: false, cached_remote: None },
            ),
    {
        match self.find(id) {
            Some(i) => self.entries[i].root.clone(),
            None => {
                let ghost before = self@;
                let entry = WorkspaceEntry {
                    id: id.clone(),
                    root: root.clone(),
                    readers: 0,
                    writer: false,
                    cached_remote: None,
                };
                self.entries.push(entry);
                assert(self@ =~= before.push(entry@));
                root.clone()
            },
        }
    }

    /// Forgets a workspace, as when it is closed or its root is to be
    /// resolved anew. Returns whether the entry was removed: a workspace that
    /// the registry does not know, or whose guard is held, stays as it is.
    pub fn remove(&mut self, id: &String) -> (removed: bool)
        requires
            old(self).wf(),
        ensures
            final(self).wf(),
            removed == (known(old(self)@, id@) && !old(self)@[place_of(old(self)@, id@)].held()),
            removed ==> final(self)@ == old(self)@.remove(place_of(old(self)@, id@)),
            !removed ==> final(self)@ == old(self)@,
    {
        match self.find(id) {
            Some(i) => {
                if self.entries[i].writer || self.entries[i].readers > 0 {
                    false
                } else {
                    let ghost before = self@;
                    self.entries.remove(i);
                    assert(self@ =~= before.remove(i as int));
                    true
                }
            },
            None => false,
        }
    }

    /// Returns the remote URL cached for the workspace, if there is one.
    pub fn cached_remote(&self, id: &String) -> (url: Option<String>)
        requires
            self.wf(),
        ensures
            match url {
                Some(u) => known(self@, id@) && self@[place_of(self@, id@)].cached_remote == Some(u@),
                None => !known(self@, id@) || self@[place_of(self@, id@)].cached_remote is None,
            },
    {
        match self.find(id) {
            Some(i) => copy_text(&self.entries[i].cached_remote),
            None => None,
        }
    }

    /// Caches a remote URL for the workspace, or with `None` drops what is
    /// cached. Returns whether the registry knows the workspace; if not,
    /// nothing changes.
    pub fn cache_remote(&mut self, id: &String, url: Option<String>) -> (done: bool)
        requires
            old(self).wf(),
        ensures
            final(self).wf(),
            done == known(old(self)@, id@),
            done ==> final(self)@ == with_remote(
                old(self)@,
                id@,
                match url {
                    Some(u) => Some(u@),
                    None => None,
                },
            ),
            !done ==> final(self)@ == old(self)@,
    {
        match self.find(id) {
            Some(i) => {
                let ghost before = self@;
                let readers = self.entries[i].readers;
                let writer = self.entries[i].writer;
                self.replace(i, readers, writer, url);
                proof {
                    let t = self@;
                    assert forall|a: int, b: int| 0 <= a < b < t.len() implies (#[trigger] t[a]).id != (
                    #[trigger] t[b]).id by {
                        assert(before[a].id != before[b].id);
                    }
                    assert forall|a: int| 0 <= a < t.len() implies !((#[trigger] t[a]).writer
                        && t[a].readers > 0) by {
                        assert(!(before[a].writer && before[a].readers > 0));
                    }
                    assert forall|a: int, b: int|
                        0 <= a < t.len() && 0 <= b < t.len() && a != b && (#[trigger] t[a]).root == (
                        #[trigger] t[b]).root && t[a].writer implies !t[b].held() by {
                        assert(before[a].writer);
                        assert(!before[b].held());
                    }
                }
                true
            },
            None => false,
        }
    }

    fn root_is_barred(&self, root: &String, access: Access) -> (r: bool)
        ensures
            r == barred(self@, root@, access),
    {
        let n = self.entries.len();
        let mut j: usize = 0;
        while j < n
            invariant
                n == self.entries.len(),
                j <= n,
                forall|k: int|
                    0 <= k < j ==> !((#[trigger] self@[k]).root == root@ && self@[k].bars(access)),
            decreases n - j,
        {
            let e = &self.entries[j];
            assert(e@ == self@[j as int]);
            let bars = match access {
                Access::Shared => e.writer,
                Access::Exclusive => e.writer || e.readers > 0,
            };
            if bars && e.root == *root {
                return true;
            }
            j += 1;
        }
        false
    }

    /// Asks for the guard of a workspace. The guard is granted if the
    /// registry knows the workspace and no guard on its root stands in the
    /// way: an exclusive guard bars every access, a shared one bars
    /// exclusive access. Returns whether it was granted; if not, nothing
    /// changes, and the caller may ask again later.
    pub fn begin(&mut self, id: &String, access: Access) -> (ok: bool)
        requires
            old(self).wf(),
        ensures
            final(self).wf(),
            ok == grantable(old(self)@, id@, access),
            ok ==> final(self)@ == granted(old(self)@, id@, access),
            !ok ==> final(self)@ == old(self)@,
    {
        let i = match self.find(id) {
            Some(i) => i,
            None => {
                return false;
            },
        };
        let root = self.entries[i].root.clone();
        assert(root@ == self@[i as int].root);
        if self.root_is_barred(&root, access) {
            return false;
        }
        let readers = self.entries[i].readers;
        let writer = self.entries[i].writer;
        let remote = copy_text(&self.entries[i].cached_remote);
        proof {
            if access == Access::Shared && readers < usize::MAX {
                lemma_granted_wf(self@, id@, access);
            }
            if access == Access::Exclusive {
                lemma_granted_wf(self@, id@, access);
            }
        }
        let ghost before = self@;
        match access {
            Access::Shared => {
                if readers == usize::MAX {
                    return false;
                }
                self.replace(i, readers + 1, writer, remote);
            },
            Access::Exclusive => {
                self.replace(i, readers, true, remote);
            },
        }
        assert(self@ =~= granted(before, id@, access));
        true
    }

    /// Gives the guard of a workspace back. Returns whether a guard was held
    /// in the way of `access`; if not, nothing changes.
    pub fn end(&mut self, id: &String, access: Access) -> (ok: bool)
        requires
            old(self).wf(),
        ensures
            final(self).wf(),
            ok == holding(old(self)@, id@, access),
            ok ==> final(self)@ == released(old(self)@, id@, access),
            !ok ==> final(self)@ == old(self)@,
    {
        let i = match self.find(id) {
            Some(i) => i,
            None => {
                return false;
            },
        };
        let readers = self.entries[i].readers;
        let writer = self.entries[i].writer;
        let remote = copy_text(&self.entries[i].cached_remote);
        let ghost before = self@;
        match access {
            Access::Shared => {
                if readers == 0 {
                    return false;
                }
                proof {
                    lemma_released_wf(before, id@, access);
                }
                self.replace(i, readers - 1, writer, remote);
            },
            Access::Exclusive => {
                if !writer {
                    return false;
                }
                proof {
                    lemma_released_wf(before, id@, access);
                }
                self.replace(i, readers, false, remote);
            },
        }
        assert(self@ =~= released(before, id@, access));
        true
    }

    /// Asks for the guard that `operation` needs on a workspace. Fails with
    /// `NotFound` if the registry does not know the workspace. Otherwise
    /// returns whether the guard was granted, as `begin` does; if it was
    /// not, nothing changes, and the caller may ask again later.
    pub fn begin_operation(&mut self, id: &String, operation: Operation) -> (r: Result<
        bool,
        CoreError,
    >)
        requires
            old(self).wf(),
        ensures
            final(self).wf(),
            !known(old(self)@, id@) ==> r == Err::<bool, CoreError>(CoreError::NotFound)
                && final(self)@ == old(self)@,
            known(old(self)@, id@) ==> r == Ok::<bool, CoreError>(
                grantable(old(self)@, id@, operation.access_spec()),
            ),
            grantable(old(self)@, id@, operation.access_spec()) ==> final(self)@ == granted(
                old(self)@,
                id@,
                operation.access_spec(),
            ),
            !grantable(old(self)@, id@, operation.access_spec()) ==> final(self)@ == old(self)@,
    {
        if self.find(id).is_none() {
            return Err(CoreError::NotFound);
        }
        Ok(self.begin(id, operation.access()))
    }

    /// Gives back the guard that `operation` held on a workspace, as `end`
    /// does, and drops the cached remote if the operation made it stale.
    /// This is to be called on every way out of the operation, whether it
    /// succeeded, failed or was abandoned.
    pub fn finish_operation(&mut self, id: &String, operation: Operation) -> (ok: bool)
        requires
            old(self).wf(),
        ensures
            final(self).wf(),
            ok == holding(old(self)@, id@, operation.access_spec()),
            ok && !operation.stales_remote() ==> final(self)@ == released(
                old(self)@,
                id@,
                operation.access_spec(),
            ),
            ok && operation.stales_remote() ==> final(self)@ == with_remote(
                released(old(self)@, id@, operation.access_spec()),
                id@,
                None,
            ),
            !ok ==> final(self)@ == old(self)@,
    {
        let ok = self.end(id, operation.access());
        if ok && operation.invalidates_remote() {
            proof {
                let p = place_of(old(self)@, id@);
                assert(self@[p].id == id@);
                lemma_place_unique(self@, p);
            }
            self.cache_remote(id, None);
        }
        ok
    }

    /// Runs `op` while holding the guard of a workspace exclusively: takes
    /// the guard, runs `op`, and gives the guard back whatever `op` returned.
    /// Returns what `op` returned, or `None` without running `op` if the
    /// guard was not granted. Either way the registry ends as it began.
    pub fn with_exclusive<T, F: FnOnce() -> T>(&mut self, id: &String, op: F) -> (r: Option<T>)
        requires
            old(self).wf(),
            op.requires(()),
        ensures
            final(self).wf(),
            final(self)@ == old(self)@,
            r is Some <==> grantable(old(self)@, id@, Access::Exclusive),
            r is Some ==> op.ensures((), r->0),
    {
        if !self.begin(id, Access::Exclusive) {
            return None;
        }
        let out = op();
        proof {
            lemma_release_undoes_grant(old(self)@, id@, Access::Exclusive);
        }
        self.end(id, Access::Exclusive);
        Some(out)
    }
}

} // verus!
