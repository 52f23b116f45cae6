//! Remote sync: how one exchange with the remote ended, and the combined
//! operation `sync` as a state machine.
//!
//! `sync` runs fetch, then pull, then push, and stops at the first step that
//! fails. The pull step reconciles by merge. The state machine decides which
//! step comes next; whoever drives it runs the step against the remote and
//! reports how it ended.

use crate::error::CoreError;
use crate::text::{contains_text, find_text, to_chars};
use vstd::prelude::*;
use vstd::string::*;

verus! {

/// The steps of `sync`, in the order in which they run.
#[derive(Clone, Copy, Debug, PartialEq, Eq, Structural)]
pub enum SyncStep {
    Fetch,
    Pull,
    Push,
}

/// How the pull step reconciles local and remote history.
#[derive(Clone, Copy, Debug, PartialEq, Eq, Structural)]
pub enum Reconcile {
    Merge,
    Rebase,
}

/// How one step against the remote ended.
#[derive(Clone, Copy, Debug, PartialEq, Eq, Structural)]
pub enum StepOutcome {
    /// The step succeeded.
    Done,
    /// The remote refused the credentials.
    AuthFailed,
    /// The remote could not be reached.
    NetworkFailed,
    /// The step failed for another reason, such as a merge conflict or a
    /// rejected push.
    Failed,
}

impl StepOutcome {
    /// The error that this outcome stands for, if it is a failure.
    pub open spec fn error(self) -> Option<CoreError> {
        match self {
            StepOutcome::Done => None,
            StepOutcome::AuthFailed => Some(CoreError::AuthError),
            StepOutcome::NetworkFailed => Some(CoreError::NetworkError),
            StepOutcome::Failed => Some(CoreError::GitError),
        }
    }

    /// The result of a fetch, pull or push that ended in this way:
    /// `AuthError` for refused credentials, `NetworkError` for an
    /// unreachable remote, `GitError` for any other failure.
    pub fn result(self) -> (r: Result<(), CoreError>)
        ensures
            match self.error() {
                Some(e) => r == Err::<(), CoreError>(e),
                None => r is Ok,
            },
    {
        match self {
            StepOutcome::Done => Ok(()),
            StepOutcome::AuthFailed => Err(CoreError::AuthError),
            StepOutcome::NetworkFailed => Err(CoreError::NetworkError),
            StepOutcome::Failed => Err(CoreError::GitError),
        }
    }
}

/// Whether the diagnostics of a failed step speak of refused credentials.
pub open spec fn speaks_of_auth(text: Seq<char>) -> bool {
    ||| contains_text(text, "Authentication failed"@)
    ||| contains_text(text, "could not read Username"@)
    ||| contains_text(text, "could not read Password"@)
    ||| contains_text(text, "Permission denied"@)
    ||| contains_text(text, "terminal prompts disabled"@)
}

/// Whether the diagnostics of a failed step speak of an unreachable remote.
pub open spec fn speaks_of_network(text: Seq<char>) -> bool {
    ||| contains_text(text, "Could not resolve host"@)
    ||| contains_text(text, "Connection refused"@)
    ||| contains_text(text, "Connection timed out"@)
    ||| contains_text(text, "Network is unreachable"@)
    ||| contains_text(text, "Could not read from remote repository"@)
}

/// The outcome that the diagnostics of a failed step stand for. Credentials
/// are looked for first.
pub open spec fn failure_of(text: Seq<char>) -> StepOutcome {
    if speaks_of_auth(text) {
        StepOutcome::AuthFailed
    } else if speaks_of_network(text) {
        StepOutcome::NetworkFailed
    } else {
        StepOutcome::Failed
    }
}

fn mentions(text: &Vec<char>, phrase: &str) -> (r: bool)
    ensures
        r == contains_text(text@, phrase@),
{
    let pat = to_chars(phrase);
    find_text(text, &pat)
}

/// Tells from the diagnostics of a failed step why it failed.
pub fn classify_failure(diagnostics: &String) -> (outcome: StepOutcome)
    ensures
        outcome == failure_of(diagnostics@),
        outcome != StepOutcome::Done,
{
    let text = to_chars(diagnostics.as_str());
    if mentions(&text, "Authentication failed") || mentions(&text, "could not read Username")
        || mentions(&text, "could not read Password") || mentions(&text, "Permission denied")
        || mentions(&text, "terminal prompts disabled") {
        StepOutcome::AuthFailed
    } else if mentions(&text, "Could not resolve host") || mentions(&text, "Connection refused")
        || mentions(&text, "Connection timed out") || mentions(&text, "Network is unreachable")
        || mentions(&text, "Could not read from remote repository") {
        StepOutcome::NetworkFailed
    } else {
        StepOutcome::Failed
    }
}

/// Why `sync` failed: the step that failed, and its error.
#[derive(Clone, Copy, Debug, PartialEq, Eq, Structural)]
pub struct SyncFailure {
    pub step: SyncStep,
    pub error: CoreError,
}

impl SyncFailure {
    /// The message of this failure: the step that failed, and the message of
    /// its error.
    pub open spec fn message_spec(self) -> Seq<char> {
        "sync failed at "@ + self.step.name_spec() + ": "@ + self.error.message_spec()
    }

    /// Returns the human-readable message of this failure.
    pub fn message(&self) -> (m: String)
        ensures
            m@ == self.message_spec(),
    {
        let mut m = String::from_str("sync failed at ");
        m.append(self.step.name());
        m.append(": ");
        m.append(self.error.message().as_str());
        m
    }
}

/// The state of a `sync`.
#[derive(Clone, Copy, Debug, PartialEq, Eq, Structural)]
pub enum SyncState {
    /// The given step is to be run now, and its outcome reported.
    Running(SyncStep),
    /// All three steps succeeded.
    Succeeded,
    /// A step failed, and no later step was run.
    Stopped(SyncFailure),
}

impl SyncStep {
    /// The name of the step.
    pub open spec fn name_spec(self) -> Seq<char> {
        match self {
            SyncStep::Fetch => "fetch"@,
            SyncStep::Pull => "pull"@,
            SyncStep::Push => "push"@,
        }
    }

    /// The state after this step succeeded.
    pub open spec fn then_spec(self) -> SyncState {
        match self {
            SyncStep::Fetch => SyncState::Running(SyncStep::Pull),
            SyncStep::Pull => SyncState::Running(SyncStep::Push),
            SyncStep::Push => SyncState::Succeeded,
        }
    }

    /// Returns the name of the step: `fetch`, `pull` or `push`.
    pub fn name(self) -> (s: &'static str)
        ensures
            s@ == self.name_spec(),
    {
        match self {
            SyncStep::Fetch => "fetch",
            SyncStep::Pull => "pull",
            SyncStep::Push => "push",
        }
    }
}

impl SyncState {
    /// The state after the running step ended with `outcome`. A state in
    /// which nothing runs stays as it is.
    pub open spec fn advanced(self, outcome: StepOutcome) -> SyncState {
        match self {
            SyncState::Running(step) => match outcome.error() {
                None => step.then_spec(),
                Some(error) => SyncState::Stopped(SyncFailure { step, error }),
            },
            _ => self,
        }
    }

    /// The result of a `sync` that has ended, or `None` while a step runs.
    pub open spec fn result_spec(self) -> Option<Result<(), SyncFailure>> {
        match self {
            SyncState::Running(_) => None,
            SyncState::Succeeded => Some(Ok(())),
            SyncState::Stopped(f) => Some(Err(f)),
        }
    }

    /// The state in which a `sync` begins: the fetch is to be run.
    pub fn start() -> (s: SyncState)
        ensures
            s == SyncState::Running(SyncStep::Fetch),
    {
        SyncState::Running(SyncStep::Fetch)
    }

    /// Takes note of how the running step ended and decides what comes next:
    /// the next step after a success, the end after the success of the push,
    /// and the end with the failed step and its error after a failure.
    pub fn advance(self, outcome: StepOutcome) -> (s: SyncState)
        ensures
            s == self.advanced(outcome),
    {
        match self {
            SyncState::Running(step) => match outcome {
                StepOutcome::Done => match step {
                    SyncStep::Fetch => SyncState::Running(SyncStep::Pull),
                    SyncStep::Pull => SyncState::Running(SyncStep::Push),
                    SyncStep::Push => SyncState::Succeeded,
                },
                StepOutcome::AuthFailed => SyncState::Stopped(
                    SyncFailure { step, error: CoreError::AuthError },
                ),
                StepOutcome::NetworkFailed => SyncState::Stopped(
                    SyncFailure { step, error: CoreError::NetworkError },
                ),
                StepOutcome::Failed => SyncState::Stopped(
                    SyncFailure { step, error: CoreError::GitError },
                ),
            },
            SyncState::Succeeded => SyncState::Succeeded,
            SyncState::Stopped(f) => SyncState::Stopped(f),
        }
    }

    /// Returns the step that is to be run now, if any.
    pub fn running(self) -> (step: Option<SyncStep>)
        ensures
            step == match self {
                SyncState::Running(s) => Some(s),
                _ => None,
            },
    {
        match self {
            SyncState::Running(s) => Some(s),
            _ => None,
        }
    }

    /// Returns the result of a `sync` that has ended, or `None` while a step
    /// runs.
    pub fn result(self) -> (r: Option<Result<(), SyncFailure>>)
        ensures
            r == self.result_spec(),
    {
        match self {
            SyncState::Running(_) => None,
            SyncState::Succeeded => Some(Ok(())),
            SyncState::Stopped(f) => Some(Err(f)),
        }
    }
}

/// How the pull step reconciles: by merge.
pub fn pull_strategy() -> (r: Reconcile)
    ensures
        r == Reconcile::Merge,
{
    Reconcile::Merge
}

/// The state of a `sync` after the outcomes `outcomes` were reported, one
/// after the other.
pub open spec fn state_after(outcomes: Seq<StepOutcome>) -> SyncState
    decreases outcomes.len(),
{
    if outcomes.len() == 0 {
        SyncState::Running(SyncStep::Fetch)
    } else {
        state_after(outcomes.drop_last()).advanced(outcomes.last())
    }
}

/// A `sync` that has ended stays ended, with the same result, whatever is
/// reported to it.
pub proof fn lemma_end_is_final(outcomes: Seq<StepOutcome>, n: int)
    requires
        0 <= n <= outcomes.len(),
        state_after(outcomes.take(n)).result_spec() is Some,
    ensures
        state_after(outcomes) == state_after(outcomes.take(n)),
    decreases outcomes.len() - n,
{
    if n < outcomes.len() {
        let next = outcomes.take(n + 1);
        assert(next.drop_last() =~= outcomes.take(n));
        lemma_end_is_final(outcomes, n + 1);
    } else {
        assert(outcomes.take(n) =~= outcomes);
    }
}

/// The steps run in order: the fetch first, the pull only after the fetch
/// succeeded, the push only after fetch and pull both succeeded.
pub proof fn lemma_steps_in_order(outcomes: Seq<StepOutcome>)
    ensures
        state_after(outcomes) == SyncState::Running(SyncStep::Fetch) <==> outcomes.len() == 0,
        state_after(outcomes) == SyncState::Running(SyncStep::Pull) <==> outcomes.len() == 1
            && outcomes[0] == StepOutcome::Done,
        state_after(outcomes) == SyncState::Running(SyncStep::Push) <==> outcomes.len() == 2
            && outcomes[0] == StepOutcome::Done && outcomes[1] == StepOutcome::Done,
    decreases outcomes.len(),
{
    if outcomes.len() > 0 {
        let before = outcomes.drop_last();
        lemma_steps_in_order(before);
        if before.len() > 0 {
            assert(before[0] == outcomes[0]);
        }
        if before.len() > 1 {
            assert(before[1] == outcomes[1]);
        }
    }
}

/// When a step fails, `sync` ends there: it reports that step and its error,
/// and no later step is ever run. In particular a failed pull is reported as
/// the pull, and the push is not attempted.
pub proof fn lemma_failure_stops(outcomes: Seq<StepOutcome>, n: int, step: SyncStep)
    requires
        0 <= n < outcomes.len(),
        state_after(outcomes.take(n)) == SyncState::Running(step),
        outcomes[n] != StepOutcome::Done,
    ensures
        state_after(outcomes) == SyncState::Stopped(
            SyncFailure { step, error: outcomes[n].error()->0 },
        ),
        forall|m: int|
            n < m <= outcomes.len() ==> (#[trigger] state_after(outcomes.take(m))).result_spec()
                is Some,
{
    let next = outcomes.take(n + 1);
    assert(next.drop_last() =~= outcomes.take(n));
    assert(next.last() == outcomes[n]);
    lemma_end_is_final(outcomes, n + 1);
    assert forall|m: int| n < m <= outcomes.len() implies (#[trigger] state_after(
        outcomes.take(m),
    )).result_spec() is Some by {
        let upto = outcomes.take(m);
        assert(upto.take(n + 1) =~= next);
        lemma_end_is_final(upto, n + 1);
    }
}

} // verus!
