//! The branch manager: the branches of one repository, which of them is
//! checked out, and the rules for creating a branch and switching to one.

use crate::error::CoreError;
use crate::text::{matches_at, starts_with, to_chars};
use vstd::prelude::*;
use vstd::string::*;

verus! {

/// Whether a character may not occur in a reference name: a control
/// character, a space, or one of `~ ^ : ? * [ \`.
pub open spec fn forbidden_char(c: char) -> bool {
    let u = c as u32;
    u < 0x20 || u == 0x7f || c == ' ' || c == '~' || c == '^' || c == ':' || c == '?' || c == '*'
        || c == '[' || c == '\\'
}

/// Whether two characters may not follow each other in a reference name:
/// `..`, `//` and `@{`.
pub open spec fn forbidden_pair(a: char, b: char) -> bool {
    (a == '.' && b == '.') || (a == '/' && b == '/') || (a == '@' && b == '{')
}

/// Whether the component that ends before `end` ends with `.lock`.
pub open spec fn locked_at(s: Seq<char>, end: int) -> bool {
    5 <= end <= s.len() && s[end - 5] == '.' && s[end - 4] == 'l' && s[end - 3] == 'o' && s[end
        - 2] == 'c' && s[end - 1] == 'k'
}

/// Whether the name obeys, at `i`, the rules that speak of single places: no
/// forbidden character or pair, no component that begins with a dot, none
/// that ends with `.lock`.
pub open spec fn place_ok(s: Seq<char>, i: int) -> bool {
    &&& !forbidden_char(s[i])
    &&& i + 1 < s.len() ==> !forbidden_pair(s[i], s[i + 1])
    &&& (i == 0 || s[i - 1] == '/') ==> s[i] != '.'
    &&& (i + 1 == s.len() || s[i + 1] == '/') ==> !locked_at(s, i + 1)
}

/// Whether `s` is a valid branch name: a reference name that does not begin
/// with a dash. A reference name is not empty and not the single character
/// `@`; it does not begin or end with a slash, nor end with a dot; and it
/// obeys `place_ok` everywhere.
pub open spec fn valid_branch_name(s: Seq<char>) -> bool {
    &&& s.len() > 0
    &&& s[0] != '-'
    &&& s[0] != '/'
    &&& s.last() != '/'
    &&& s.last() != '.'
    &&& !(s.len() == 1 && s[0] == '@')
    &&& forall|i: int| 0 <= i < s.len() ==> place_ok(s, i)
}

fn char_forbidden(c: char) -> (r: bool)
    ensures
        r == forbidden_char(c),
{
    let u: u32 = c as u32;
    u < 0x20 || u == 0x7f || c == ' ' || c == '~' || c == '^' || c == ':' || c == '?' || c == '*'
        || c == '[' || c == '\\'
}

fn check_place(v: &Vec<char>, i: usize) -> (r: bool)
    requires
        i < v.len(),
    ensures
        r == place_ok(v@, i as int),
{
    let n = v.len();
    let c = v[i];
    if char_forbidden(c) {
        return false;
    }
    if i + 1 < n {
        let d = v[i + 1];
        if (c == '.' && d == '.') || (c == '/' && d == '/') || (c == '@' && d == '{') {
            return false;
        }
    }
    if (i == 0 || v[i - 1] == '/') && c == '.' {
        return false;
    }
    if (i + 1 == n || v[i + 1] == '/') && i >= 4 {
        if v[i - 4] == '.' && v[i - 3] == 'l' && v[i - 2] == 'o' && v[i - 1] == 'c' && c == 'k' {
            return false;
        }
    }
    true
}

/// Tests a branch name for validity.
pub fn is_valid_branch_name(name: &String) -> (r: bool)
    ensures
        r == valid_branch_name(name@),
{
    let v = to_chars(name.as_str());
    let n = v.len();
    if n == 0 {
        return false;
    }
    if v[0] == '-' || v[0] == '/' || v[n - 1] == '/' || v[n - 1] == '.' {
        return false;
    }
    if n == 1 && v[0] == '@' {
        return false;
    }
    let mut i: usize = 0;
    while i < n
        invariant
            n == v.len(),
            i <= n,
            v@ == name@,
            forall|k: int| 0 <= k < i ==> place_ok(v@, k),
        decreases n - i,
    {
        if !check_place(&v, i) {
            return false;
        }
        i += 1;
    }
    true
}

/// One branch.
#[derive(Clone, Debug, PartialEq, Eq)]
pub struct BranchInfo {
    pub name: String,
    /// Whether this branch is checked out.
    pub is_current: bool,
    /// Whether this is a remote-tracking branch.
    pub is_remote: bool,
    /// The branch that this one tracks, if any.
    pub upstream: Option<String>,
}

/// The mathematical model of a [`BranchInfo`].
pub struct BranchView {
    pub name: Seq<char>,
    pub is_current: bool,
    pub is_remote: bool,
    pub upstream: Option<Seq<char>>,
}

impl View for BranchInfo {
    type V = BranchView;

    open spec fn view(&self) -> BranchView {
        BranchView {
            name: self.name@,
            is_current: self.is_current,
            is_remote: self.is_remote,
            upstream: match self.upstream {
                Some(u) => Some(u@),
                None => None,
            },
        }
    }
}

impl BranchInfo {
    /// Returns a copy of this branch.
    pub fn copy(&self) -> (b: BranchInfo)
        ensures
            b@ == self@,
    {
        BranchInfo {
            name: self.name.clone(),
            is_current: self.is_current,
            is_remote: self.is_remote,
            upstream: match &self.upstream {
                Some(u) => Some(u.clone()),
                None => None,
            },
        }
    }
}

/// The branch that a full reference name stands for: the local branch
/// `name` for `refs/heads/name`, the remote-tracking branch `name` for
/// `refs/remotes/name`, and none for any other reference or an empty name.
/// The result is the name and whether the branch is remote-tracking.
pub open spec fn branch_of(refname: Seq<char>) -> Option<(Seq<char>, bool)> {
    if starts_with(refname, "refs/heads/"@) {
        if refname.len() > "refs/heads/"@.len() {
            Some((refname.skip("refs/heads/"@.len() as int), false))
        } else {
            None
        }
    } else if starts_with(refname, "refs/remotes/"@) {
        if refname.len() > "refs/remotes/"@.len() {
            Some((refname.skip("refs/remotes/"@.len() as int), true))
        } else {
            None
        }
    } else {
        None
    }
}

/// Reads a branch off a full reference name, as `branch_of` says, and gives
/// it the flag and the upstream that came with the reference.
pub fn branch_from_ref(refname: &String, is_current: bool, upstream: Option<String>) -> (r: Option<
    BranchInfo,
>)
    ensures
        match branch_of(refname@) {
            Some((name, is_remote)) => r is Some && r->0@ == (BranchView {
                name,
                is_current,
                is_remote,
                upstream: match upstream {
                    Some(u) => Some(u@),
                    None => None,
                },
            }),
            None => r is None,
        },
{
    let v = to_chars(refname.as_str());
    let heads = to_chars("refs/heads/");
    let remotes = to_chars("refs/remotes/");
    let (start, is_remote) = if matches_at(&v, &heads, 0) {
        (heads.len(), false)
    } else if matches_at(&v, &remotes, 0) {
        (remotes.len(), true)
    } else {
        return None;
    };
    if v.len() <= start {
        return None;
    }
    let name = refname.as_str().substring_char(start, v.len()).to_owned();
    assert(name@ =~= refname@.skip(start as int));
    Some(BranchInfo { name, is_current, is_remote, upstream })
}

/// The model of every branch of a sequence, in order.
pub open spec fn branch_views(v: Seq<BranchInfo>) -> Seq<BranchView> {
    Seq::new(v.len(), |i: int| v[i]@)
}

/// Whether there is a local branch called `name`.
pub open spec fn has_local(s: Seq<BranchView>, name: Seq<char>) -> bool {
    exists|i: int| 0 <= i < s.len() && !(#[trigger] s[i]).is_remote && s[i].name == name
}

/// Whether there is a branch called `name` of the given sort.
pub open spec fn has_branch(s: Seq<BranchView>, name: Seq<char>, is_remote: bool) -> bool {
    exists|i: int| 0 <= i < s.len() && (#[trigger] s[i]).is_remote == is_remote && s[i].name == name
}

/// Whether some branch is checked out.
pub open spec fn has_current(s: Seq<BranchView>) -> bool {
    exists|i: int| 0 <= i < s.len() && (#[trigger] s[i]).is_current
}

/// The invariant of the branches: at most one is checked out, it is a local
/// one, and no two of the same sort share a name.
pub open spec fn branches_wf(s: Seq<BranchView>) -> bool {
    &&& forall|i: int| 0 <= i < s.len() && (#[trigger] s[i]).is_current ==> !s[i].is_remote
    &&& forall|i: int, j: int|
        0 <= i < j < s.len() ==> !((#[trigger] s[i]).is_current && (#[trigger] s[j]).is_current)
    &&& forall|i: int, j: int|
        0 <= i < j < s.len() ==> !((#[trigger] s[i]).name == (#[trigger] s[j]).name
            && s[i].is_remote == s[j].is_remote)
}

/// Whether a branch found in the repository can join the others without
/// breaking the invariant.
pub open spec fn admissible(s: Seq<BranchView>, b: BranchView) -> bool {
    &&& !has_branch(s, b.name, b.is_remote)
    &&& b.is_current ==> !b.is_remote && !has_current(s)
}

/// The branches after a checkout of the local branch `name`: that branch is
/// the checked-out one and no other is.
pub open spec fn switched(s: Seq<BranchView>, name: Seq<char>) -> Seq<BranchView> {
    Seq::new(
        s.len(),
        |i: int| BranchView { is_current: !s[i].is_remote && s[i].name == name, ..s[i] },
    )
}

/// The name of the checked-out branch, if there is one.
pub open spec fn current_of(s: Seq<BranchView>) -> Option<Seq<char>>
    decreases s.len(),
{
    if s.len() == 0 {
        None
    } else if s[0].is_current {
        Some(s[0].name)
    } else {
        current_of(s.drop_first())
    }
}

/// A checkout keeps the invariant.
pub proof fn lemma_switched_wf(s: Seq<BranchView>, name: Seq<char>)
    requires
        branches_wf(s),
    ensures
        branches_wf(switched(s, name)),
{
    let t = switched(s, name);
    assert forall|i: int, j: int| 0 <= i < j < t.len() implies !((#[trigger] t[i]).is_current && (
    #[trigger] t[j]).is_current) by {
        assert(!(s[i].name == s[j].name && s[i].is_remote == s[j].is_remote));
    }
    assert forall|i: int, j: int| 0 <= i < j < t.len() implies !((#[trigger] t[i]).name == (
    #[trigger] t[j]).name && t[i].is_remote == t[j].is_remote) by {
        assert(!(s[i].name == s[j].name && s[i].is_remote == s[j].is_remote));
    }
}

/// After a checkout of an existing local branch, that branch is the
/// checked-out one.
pub proof fn lemma_switched_current(s: Seq<BranchView>, name: Seq<char>)
    requires
        has_local(s, name),
    ensures
        current_of(switched(s, name)) == Some(name),
    decreases s.len(),
{
    let t = switched(s, name);
    let w = choose|i: int| 0 <= i < s.len() && !(#[trigger] s[i]).is_remote && s[i].name == name;
    if t[0].is_current {
    } else {
        assert(w > 0);
        let rest = s.drop_first();
        assert(!rest[w - 1].is_remote && rest[w - 1].name == name);
        assert(t.drop_first() =~= switched(rest, name));
        lemma_switched_current(rest, name);
    }
}

/// The branches of one repository.
#[derive(Clone, Debug)]
pub struct Branches {
    list: Vec<BranchInfo>,
}

impl View for Branches {
    type V = Seq<BranchView>;

    closed spec fn view(&self) -> Seq<BranchView> {
        branch_views(self.list@)
    }
}

impl Branches {
    /// The invariant of the branches.
    pub open spec fn wf(&self) -> bool {
        branches_wf(self@)
    }

    /// No branches.
    pub fn new() -> (b: Branches)
        ensures
            b@ == Seq::<BranchView>::empty(),
            b.wf(),
    {
        let b = Branches { list: Vec::new() };
        assert(b@ =~= Seq::<BranchView>::empty());
        b
    }

    fn find(&self, name: &String, is_remote: bool) -> (place: Option<usize>)
        ensures
            match place {
                Some(i) => i < self@.len() && self@[i as int].name == name@ && self@[i as int].is_remote
                    == is_remote,
                None => !has_branch(self@, name@, is_remote),
            },
    {
        let n = self.list.len();
        let mut i: usize = 0;
        while i < n
            invariant
                n == self.list.len(),
                i <= n,
                forall|k: int|
                    0 <= k < i ==> !((#[trigger] self@[k]).is_remote == is_remote && self@[k].name
                        == name@),
            decreases n - i,
        {
            if self.list[i].is_remote == is_remote && self.list[i].name == *name {
                return Some(i);
            }
            i += 1;
        }
        None
    }

    fn any_current(&self) -> (r: bool)
        ensures
            r == has_current(self@),
    {
        let n = self.list.len();
        let mut i: usize = 0;
        while i < n
            invariant
                n == self.list.len(),
                i <= n,
                forall|k: int| 0 <= k < i ==> !(#[trigger] self@[k]).is_current,
            decreases n - i,
        {
            if self.list[i].is_current {
                assert(self@[i as int].is_current);
                return true;
            }
            i += 1;
        }
        false
    }

    /// Takes note of a branch found in the repository. A branch that would
    /// break the invariant (a second one of its name and sort, a checked-out
    /// remote-tracking branch, a second checked-out branch) is refused, and
    /// the branches stay as they were.
    pub fn track(&mut self, branch: BranchInfo) -> (accepted: bool)
        requires
            old(self).wf(),
        ensures
            final(self).wf(),
            accepted == admissible(old(self)@, branch@),
            accepted ==> final(self)@ == old(self)@.push(branch@),
            !accepted ==> final(self)@ == old(self)@,
    {
        if self.find(&branch.name, branch.is_remote).is_some() {
            return false;
        }
        if branch.is_current && (branch.is_remote || self.any_current()) {
            return false;
        }
        let ghost before = self@;
        self.list.push(branch);
        assert(self@ =~= before.push(branch@));
        true
    }

    /// Lists the local and the remote-tracking branches, with the
    /// checked-out one flagged.
    pub fn list_branches(&self) -> (v: Vec<BranchInfo>)
        ensures
            branch_views(v@) == self@,
    {
        let mut v: Vec<BranchInfo> = Vec::new();
        let n = self.list.len();
        let mut i: usize = 0;
        while i < n
            invariant
                n == self.list.len(),
                i <= n,
                v.len() == i,
                forall|k: int| 0 <= k < i ==> (#[trigger] v@[k])@ == self@[k],
            decreases n - i,
        {
            v.push(self.list[i].copy());
            i += 1;
        }
        assert(branch_views(v@) =~= self@);
        v
    }

    /// The name of the checked-out branch, if there is one.
    pub fn current(&self) -> (name: Option<String>)
        ensures
            match name {
                Some(n) => current_of(self@) == Some(n@),
                None => current_of(self@) is None,
            },
    {
        let n = self.list.len();
        let mut i: usize = 0;
        assert(self@.skip(0) =~= self@);
        while i < n
            invariant
                n == self.list.len(),
                i <= n,
                current_of(self@) == current_of(self@.skip(i as int)),
            decreases n - i,
        {
            let ghost rest = self@.skip(i as int);
            assert(rest[0] == self@[i as int]);
            assert(rest.drop_first() =~= self@.skip(i + 1));
            if self.list[i].is_current {
                return Some(self.list[i].name.clone());
            }
            i += 1;
        }
        None
    }

    /// Creates a local branch, not checked out and without upstream. Fails
    /// with `InvalidName` if the name is not a valid branch name, and with
    /// `AlreadyExists` if a local branch has it; the branches then stay as
    /// they were.
    pub fn create_branch(&mut self, name: &String) -> (r: Result<(), CoreError>)
        requires
            old(self).wf(),
        ensures
            final(self).wf(),
            !valid_branch_name(name@) ==> r == Err::<(), CoreError>(CoreError::InvalidName)
                && final(self)@ == old(self)@,
            valid_branch_name(name@) && has_local(old(self)@, name@) ==> r == Err::<(), CoreError>(
                CoreError::AlreadyExists,
            ) && final(self)@ == old(self)@,
            valid_branch_name(name@) && !has_local(old(self)@, name@) ==> r is Ok && final(self)@
                == old(self)@.push(
                BranchView { name: name@, is_current: false, is_remote: false, upstream: None },
            ),
    {
        if !is_valid_branch_name(name) {
            return Err(CoreError::InvalidName);
        }
        match self.find(name, false) {
            Some(i) => {
                assert(!self@[i as int].is_remote && self@[i as int].name == name@);
                Err(CoreError::AlreadyExists)
            },
            None => {
                assert(!has_local(self@, name@)) by {
                    if has_local(self@, name@) {
                        let i = choose|i: int|
                            0 <= i < self@.len() && !(#[trigger] self@[i]).is_remote && self@[i].name
                                == name@;
                        assert(self@[i].is_remote == false);
                    }
                }
                let ghost before = self@;
                let branch = BranchInfo {
                    name: name.clone(),
                    is_current: false,
                    is_remote: false,
                    upstream: None,
                };
                self.list.push(branch);
                assert(self@ =~= before.push(branch@));
                Ok(())
            },
        }
    }

    /// Checks out the local branch `name`. Fails with `BranchNotFound` if
    /// there is no such local branch, and with `DirtyWorkingTree` if
    /// `blocked` says that uncommitted changes stand in the way; the
    /// branches, and with them the checked-out branch, then stay as they
    /// were. Nothing is discarded to make way.
    pub fn checkout_branch(&mut self, name: &String, blocked: bool) -> (r: Result<(), CoreError>)
        requires
            old(self).wf(),
        ensures
            final(self).wf(),
            !has_local(old(self)@, name@) ==> r == Err::<(), CoreError>(CoreError::BranchNotFound)
                && final(self)@ == old(self)@,
            has_local(old(self)@, name@) && blocked ==> r == Err::<(), CoreError>(
                CoreError::DirtyWorkingTree,
            ) && final(self)@ == old(self)@,
            has_local(old(self)@, name@) && !blocked ==> r is Ok && final(self)@ == switched(
                old(self)@,
                name@,
            ) && current_of(final(self)@) == Some(name@),
    {
        match self.find(name, false) {
            None => {
                assert(!has_local(self@, name@)) by {
                    if has_local(self@, name@) {
                        let i = choose|i: int|
                            0 <= i < self@.len() && !(#[trigger] self@[i]).is_remote && self@[i].name
                                == name@;
                        assert(self@[i].is_remote == false);
                    }
                }
                return Err(CoreError::BranchNotFound);
            },
            Some(i) => {
                assert(!self@[i as int].is_remote && self@[i as int].name == name@);
            },
        }
        if blocked {
            return Err(CoreError::DirtyWorkingTree);
        }
        let ghost before = self@;
        let mut out: Vec<BranchInfo> = Vec::new();
        let n = self.list.len();
        let mut i: usize = 0;
        while i < n
            invariant
                n == self.list.len(),
                i <= n,
                self@ == before,
                out.len() == i,
                forall|k: int| 0 <= k < i ==> (#[trigger] out@[k])@ == switched(before, name@)[k],
            decreases n - i,
        {
            let b = &self.list[i];
            assert(b@ == before[i as int]);
            let hit = !b.is_remote && b.name == *name;
            out.push(
                BranchInfo {
                    name: b.name.clone(),
                    is_current: hit,
                    is_remote: b.is_remote,
                    upstream: match &b.upstream {
                        Some(u) => Some(u.clone()),
                        None => None,
                    },
                },
            );
            i += 1;
        }
        self.list = out;
        proof {
            assert(self@ =~= switched(before, name@));
            lemma_switched_wf(before, name@);
            lemma_switched_current(before, name@);
        }
        Ok(())
    }
}

} // verus!
