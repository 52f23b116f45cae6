//! Why the guard makes concurrent mutations serial.
//!
//! A mutating operation takes the guard of its workspace exclusively, reads
//! the repository, changes it according to what it read, and gives the guard
//! back. This module models any number of such operations on workspaces that
//! resolved to one root, with their steps interleaved in any order, and
//! shows that the repository always is what the operations that have written
//! so far would have made of it one after the other.

use crate::registry::{
    granted, grantable, holding, known, lemma_granted_wf, lemma_place_unique, lemma_released_wf,
    place_of, registry_wf, released, Access, EntryView,
};
use vstd::prelude::*;

verus! {

/// One mutating operation: the workspace through which it works, and the
/// change that it makes to the repository that it finds.
#[verifier::reject_recursive_types(S)]
pub struct Task<S> {
    pub workspace: Seq<char>,
    pub change: spec_fn(S) -> S,
}

/// How far an operation has come.
pub enum Phase<S> {
    /// It waits for the guard.
    Waiting,
    /// It holds the guard and has not looked at the repository yet.
    Holding,
    /// It holds the guard and has read the repository as `seen`.
    Working { seen: S },
    /// It holds the guard and has written the repository.
    Written,
    /// It has given the guard back.
    Done,
}

impl<S> Phase<S> {
    /// Whether the operation holds the guard.
    pub open spec fn critical(self) -> bool {
        self is Holding || self is Working || self is Written
    }

    /// Whether the operation has written the repository.
    pub open spec fn has_written(self) -> bool {
        self is Written || self is Done
    }
}

/// The registry, the repository behind one root, how far each operation has
/// come, and the order in which operations have written.
pub struct World<S> {
    pub registry: Seq<EntryView>,
    pub repo: S,
    pub phases: Seq<Phase<S>>,
    pub order: Seq<int>,
}

/// The world after the operation `t` took its next step. An operation that
/// waits takes the guard if the registry grants it, and goes on waiting if
/// not; one that is done stays done.
pub open spec fn step<S>(w: World<S>, tasks: Seq<Task<S>>, t: int) -> World<S> {
    if 0 <= t < tasks.len() && t < w.phases.len() {
        match w.phases[t] {
            Phase::Waiting => if grantable(w.registry, tasks[t].workspace, Access::Exclusive) {
                World {
                    registry: granted(w.registry, tasks[t].workspace, Access::Exclusive),
                    phases: w.phases.update(t, Phase::Holding),
                    ..w
                }
            } else {
                w
            },
            Phase::Holding => World {
                phases: w.phases.update(t, Phase::Working { seen: w.repo }),
                ..w
            },
            Phase::Working { seen } => World {
                repo: (tasks[t].change)(seen),
                phases: w.phases.update(t, Phase::Written),
                order: w.order.push(t),
                ..w
            },
            Phase::Written => World {
                registry: released(w.registry, tasks[t].workspace, Access::Exclusive),
                phases: w.phases.update(t, Phase::Done),
                ..w
            },
            Phase::Done => w,
        }
    } else {
        w
    }
}

/// The world after the steps of `schedule`, which names the operation that
/// steps next, time after time.
pub open spec fn run<S>(w: World<S>, tasks: Seq<Task<S>>, schedule: Seq<int>) -> World<S>
    decreases schedule.len(),
{
    if schedule.len() == 0 {
        w
    } else {
        step(run(w, tasks, schedule.drop_last()), tasks, schedule.last())
    }
}

/// The repository after the operations of `order` ran one after the other,
/// each from start to end, on the repository `start`.
pub open spec fn serial<S>(start: S, tasks: Seq<Task<S>>, order: Seq<int>) -> S
    decreases order.len(),
{
    if order.len() == 0 {
        start
    } else {
        (tasks[order.last()].change)(serial(start, tasks, order.drop_last()))
    }
}

/// Whether every operation works through a workspace that the registry
/// knows and that resolved to `root`.
pub open spec fn on_one_root<S>(registry: Seq<EntryView>, tasks: Seq<Task<S>>, root: Seq<char>) -> bool {
    forall|t: int|
        0 <= t < tasks.len() ==> known(registry, (#[trigger] tasks[t]).workspace)
            && registry[place_of(registry, tasks[t].workspace)].root == root
}

/// Whether no guard on `root` is held.
pub open spec fn root_free(registry: Seq<EntryView>, root: Seq<char>) -> bool {
    forall|j: int| 0 <= j < registry.len() && (#[trigger] registry[j]).root == root ==> !registry[j].held()
}

/// A world in which nothing has happened yet: the registry is well formed,
/// no guard on the root is held, and every operation waits.
pub open spec fn initial<S>(w: World<S>, tasks: Seq<Task<S>>, root: Seq<char>) -> bool {
    &&& registry_wf(w.registry)
    &&& on_one_root(w.registry, tasks, root)
    &&& root_free(w.registry, root)
    &&& w.phases.len() == tasks.len()
    &&& forall|t: int| 0 <= t < w.phases.len() ==> #[trigger] w.phases[t] is Waiting
    &&& w.order.len() == 0
}

/// What holds of every world that a schedule leads to.
pub open spec fn consistent<S>(w: World<S>, tasks: Seq<Task<S>>, root: Seq<char>, start: S) -> bool {
    &&& registry_wf(w.registry)
    &&& on_one_root(w.registry, tasks, root)
    &&& w.phases.len() == tasks.len()
    &&& w.repo == serial(start, tasks, w.order)
    &&& forall|t: int|
        0 <= t < w.phases.len() ==> ((#[trigger] w.phases[t]) matches Phase::Working { seen } ==> seen
            == w.repo)
    &&& forall|t: int, u: int|
        0 <= t < w.phases.len() && 0 <= u < w.phases.len() && t != u ==> !((
        #[trigger] w.phases[t]).critical() && (#[trigger] w.phases[u]).critical())
    &&& forall|t: int|
        0 <= t < w.phases.len() && (#[trigger] w.phases[t]).critical() ==> w.registry[place_of(
            w.registry,
            tasks[t].workspace,
        )].writer
    &&& (forall|t: int| 0 <= t < w.phases.len() ==> !(#[trigger] w.phases[t]).critical())
        ==> root_free(w.registry, root)
    &&& w.order.no_duplicates()
    &&& forall|t: int|
        0 <= t < w.phases.len() ==> ((#[trigger] w.phases[t]).has_written() <==> w.order.contains(t))
    &&& forall|k: int| 0 <= k < w.order.len() ==> 0 <= #[trigger] w.order[k] < tasks.len()
}

proof fn lemma_same_places<S>(
    before: Seq<EntryView>,
    after: Seq<EntryView>,
    tasks: Seq<Task<S>>,
    root: Seq<char>,
)
    requires
        registry_wf(before),
        registry_wf(after),
        on_one_root(before, tasks, root),
        after.len() == before.len(),
        forall|j: int|
            0 <= j < before.len() ==> (#[trigger] after[j]).id == before[j].id && after[j].root
                == before[j].root,
    ensures
        on_one_root(after, tasks, root),
        forall|t: int|
            0 <= t < tasks.len() ==> place_of(after, (#[trigger] tasks[t]).workspace) == place_of(
                before,
                tasks[t].workspace,
            ),
{
    assert forall|t: int| 0 <= t < tasks.len() implies known(after, (#[trigger] tasks[t]).workspace)
        && after[place_of(after, tasks[t].workspace)].root == root && place_of(
        after,
        tasks[t].workspace,
    ) == place_of(before, tasks[t].workspace) by {
        let p = place_of(before, tasks[t].workspace);
        assert(known(before, tasks[t].workspace));
        assert(after[p].id == tasks[t].workspace);
        lemma_place_unique(after, p);
    }
}

/// A step keeps a consistent world consistent.
pub proof fn lemma_step_consistent<S>(
    w: World<S>,
    tasks: Seq<Task<S>>,
    root: Seq<char>,
    start: S,
    t: int,
)
    requires
        consistent(w, tasks, root, start),
    ensures
        consistent(step(w, tasks, t), tasks, root, start),
{
    let v = step(w, tasks, t);
    if 0 <= t < tasks.len() {
        let id = tasks[t].workspace;
        let p = place_of(w.registry, id);
        assert(known(w.registry, id));
        match w.phases[t] {
            Phase::Waiting => {
                if grantable(w.registry, id, Access::Exclusive) {
                    lemma_granted_wf(w.registry, id, Access::Exclusive);
                    lemma_same_places(w.registry, v.registry, tasks, root);
                    assert forall|u: int| 0 <= u < w.phases.len() implies !(
                    #[trigger] w.phases[u]).critical() by {
                        if w.phases[u].critical() {
                            let q = place_of(w.registry, tasks[u].workspace);
                            assert(known(w.registry, tasks[u].workspace));
                            assert(w.registry[q].root == root && w.registry[q].bars(
                                Access::Exclusive,
                            ));
                        }
                    }
                    assert forall|a: int, b: int|
                        0 <= a < v.phases.len() && 0 <= b < v.phases.len() && a != b implies !((
                    #[trigger] v.phases[a]).critical() && (#[trigger] v.phases[b]).critical()) by {
                        if a != t {
                            assert(v.phases[a] == w.phases[a]);
                        }
                        if b != t {
                            assert(v.phases[b] == w.phases[b]);
                        }
                    }
                    assert forall|u: int|
                        0 <= u < v.phases.len() && (#[trigger] v.phases[u]).critical() implies v.registry[place_of(
                        v.registry,
                        tasks[u].workspace,
                    )].writer by {
                        if u != t {
                            assert(v.phases[u] == w.phases[u]);
                        }
                    }
                    assert(v.phases[t].critical());
                    assert forall|u: int| 0 <= u < v.phases.len() implies ((
                    #[trigger] v.phases[u]).has_written() <==> v.order.contains(u)) by {
                        if u != t {
                            assert(v.phases[u] == w.phases[u]);
                        } else {
                            assert(w.phases[t].has_written() <==> w.order.contains(t));
                        }
                    }
                    assert forall|u: int| 0 <= u < v.phases.len() implies ((
                    #[trigger] v.phases[u]) matches Phase::Working { seen } ==> seen == v.repo) by {
                        if u != t {
                            assert(v.phases[u] == w.phases[u]);
                        }
                    }
                }
            },
            Phase::Holding => {
                assert forall|a: int, b: int|
                    0 <= a < v.phases.len() && 0 <= b < v.phases.len() && a != b implies !((
                #[trigger] v.phases[a]).critical() && (#[trigger] v.phases[b]).critical()) by {
                    assert(w.phases[t].critical());
                    if a != t {
                        assert(v.phases[a] == w.phases[a]);
                    }
                    if b != t {
                        assert(v.phases[b] == w.phases[b]);
                    }
                }
                assert forall|u: int|
                    0 <= u < v.phases.len() && (#[trigger] v.phases[u]).critical() implies v.registry[place_of(
                    v.registry,
                    tasks[u].workspace,
                )].writer by {
                    assert(w.phases[t].critical());
                    if u != t {
                        assert(v.phases[u] == w.phases[u]);
                    }
                }
                assert(v.phases[t].critical());
                assert forall|u: int| 0 <= u < v.phases.len() implies ((
                #[trigger] v.phases[u]).has_written() <==> v.order.contains(u)) by {
                    if u != t {
                        assert(v.phases[u] == w.phases[u]);
                    } else {
                        assert(w.phases[t].has_written() <==> w.order.contains(t));
                    }
                }
                assert forall|u: int| 0 <= u < v.phases.len() implies ((
                #[trigger] v.phases[u]) matches Phase::Working { seen } ==> seen == v.repo) by {
                    if u != t {
                        assert(v.phases[u] == w.phases[u]);
                    }
                }
            },
            Phase::Working { seen } => {
                assert(w.phases[t].critical());
                assert(seen == w.repo);
                assert(v.order.drop_last() =~= w.order);
                assert(v.order.last() == t);
                assert(!w.order.contains(t)) by {
                    assert(w.phases[t].has_written() <==> w.order.contains(t));
                }
                assert(v.order.no_duplicates()) by {
                    assert forall|a: int, b: int|
                        0 <= a < v.order.len() && 0 <= b < v.order.len() && a != b implies v.order[a]
                        != v.order[b] by {
                        if a < w.order.len() && b < w.order.len() {
                            assert(w.order[a] != w.order[b]);
                        } else if a < w.order.len() {
                            assert(w.order.contains(w.order[a]));
                        } else {
                            assert(w.order.contains(w.order[b]));
                        }
                    }
                }
                assert forall|a: int, b: int|
                    0 <= a < v.phases.len() && 0 <= b < v.phases.len() && a != b implies !((
                #[trigger] v.phases[a]).critical() && (#[trigger] v.phases[b]).critical()) by {
                    if a != t {
                        assert(v.phases[a] == w.phases[a]);
                    }
                    if b != t {
                        assert(v.phases[b] == w.phases[b]);
                    }
                }
                assert forall|u: int|
                    0 <= u < v.phases.len() && (#[trigger] v.phases[u]).critical() implies v.registry[place_of(
                    v.registry,
                    tasks[u].workspace,
                )].writer by {
                    if u != t {
                        assert(v.phases[u] == w.phases[u]);
                    }
                }
                assert(v.phases[t].critical());
                assert forall|u: int| 0 <= u < v.phases.len() implies ((
                #[trigger] v.phases[u]).has_written() <==> v.order.contains(u)) by {
                    if u != t {
                        assert(v.phases[u] == w.phases[u]);
                        assert(w.phases[u].has_written() <==> w.order.contains(u));
                        if w.order.contains(u) {
                            let k = choose|k: int| 0 <= k < w.order.len() && w.order[k] == u;
                            assert(v.order[k] == u);
                        }
                        if v.order.contains(u) {
                            let k = choose|k: int| 0 <= k < v.order.len() && v.order[k] == u;
                            assert(k < w.order.len());
                            assert(w.order[k] == u);
                        }
                    } else {
                        assert(v.order[v.order.len() - 1] == t);
                    }
                }
                assert forall|u: int| 0 <= u < v.phases.len() implies ((
                #[trigger] v.phases[u]) matches Phase::Working { seen } ==> seen == v.repo) by {
                    if u != t {
                        assert(v.phases[u] == w.phases[u]);
                        assert(!w.phases[u].critical());
                    }
                }
                assert forall|k: int| 0 <= k < v.order.len() implies 0 <= #[trigger] v.order[k]
                    < tasks.len() by {
                    if k < w.order.len() {
                        assert(v.order[k] == w.order[k]);
                    }
                }
            },
            Phase::Written => {
                assert(w.phases[t].critical());
                assert(w.registry[p].writer);
                assert(holding(w.registry, id, Access::Exclusive));
                lemma_released_wf(w.registry, id, Access::Exclusive);
                lemma_same_places(w.registry, v.registry, tasks, root);
                assert forall|u: int| 0 <= u < v.phases.len() implies !(
                #[trigger] v.phases[u]).critical() by {
                    if u != t {
                        assert(v.phases[u] == w.phases[u]);
                    }
                }
                assert(root_free(v.registry, root)) by {
                    assert forall|j: int|
                        0 <= j < v.registry.len() && (#[trigger] v.registry[j]).root
                            == root implies !v.registry[j].held() by {
                        assert(w.registry[p].root == root);
                        if j != p {
                            assert(w.registry[j].root == w.registry[p].root);
                            assert(!w.registry[j].held());
                        } else {
                            assert(!(w.registry[p].writer && w.registry[p].readers > 0));
                        }
                    }
                }
                assert forall|u: int| 0 <= u < v.phases.len() implies ((
                #[trigger] v.phases[u]).has_written() <==> v.order.contains(u)) by {
                    if u != t {
                        assert(v.phases[u] == w.phases[u]);
                    } else {
                        assert(w.phases[t].has_written() <==> w.order.contains(t));
                    }
                }
                assert forall|u: int| 0 <= u < v.phases.len() implies ((
                #[trigger] v.phases[u]) matches Phase::Working { seen } ==> seen == v.repo) by {
                    if u != t {
                        assert(v.phases[u] == w.phases[u]);
                    }
                }
            },
            Phase::Done => {},
        }
    }
}

/// Mutating operations on workspaces that resolved to one root never
/// interleave: however their steps are scheduled, the repository is what the
/// operations that have written would have made of it had they run one
/// after the other, in the order in which they wrote. Each of them stands
/// in that order once, and no two of them hold the guard at the same time.
pub proof fn lemma_mutations_are_serial<S>(
    w: World<S>,
    tasks: Seq<Task<S>>,
    root: Seq<char>,
    schedule: Seq<int>,
)
    requires
        initial(w, tasks, root),
    ensures
        run(w, tasks, schedule).repo == serial(w.repo, tasks, run(w, tasks, schedule).order),
        run(w, tasks, schedule).order.no_duplicates(),
        run(w, tasks, schedule).phases.len() == tasks.len(),
        forall|t: int|
            0 <= t < tasks.len() ==> ((#[trigger] run(w, tasks, schedule).phases[t]).has_written()
                <==> run(w, tasks, schedule).order.contains(t)),
        forall|t: int, u: int|
            0 <= t < tasks.len() && 0 <= u < tasks.len() && t != u ==> !((#[trigger] run(
                w,
                tasks,
                schedule,
            ).phases[t]).critical() && (#[trigger] run(w, tasks, schedule).phases[u]).critical()),
        consistent(run(w, tasks, schedule), tasks, root, w.repo),
    decreases schedule.len(),
{
    if schedule.len() == 0 {
        assert(consistent(w, tasks, root, w.repo)) by {
            assert forall|t: int| 0 <= t < w.phases.len() implies !(#[trigger] w.phases[t]).critical() by {
                assert(w.phases[t] is Waiting);
            }
            assert forall|t: int| 0 <= t < w.phases.len() implies ((
            #[trigger] w.phases[t]).has_written() <==> w.order.contains(t)) by {
                assert(w.phases[t] is Waiting);
            }
            assert forall|t: int| 0 <= t < w.phases.len() implies ((
            #[trigger] w.phases[t]) matches Phase::Working { seen } ==> seen == w.repo) by {
                assert(w.phases[t] is Waiting);
            }
        }
    } else {
        lemma_mutations_are_serial(w, tasks, root, schedule.drop_last());
        lemma_step_consistent(
            run(w, tasks, schedule.drop_last()),
            tasks,
            root,
            w.repo,
            schedule.last(),
        );
    }
}

} // verus!
