use gitcore::error::CoreError;
use gitcore::sync::{
    classify_failure, pull_strategy, Reconcile, StepOutcome, SyncFailure, SyncState, SyncStep,
};

fn s(text: &str) -> String {
    text.to_string()
}

fn run(outcomes: &[StepOutcome]) -> (Vec<SyncStep>, SyncState) {
    let mut state = SyncState::start();
    let mut steps = Vec::new();
    let mut next = 0;
    while let Some(step) = state.running() {
        steps.push(step);
        state = state.advance(outcomes[next]);
        next += 1;
    }
    (steps, state)
}

#[test]
fn sync_runs_fetch_pull_push() {
    let (steps, state) = run(&[StepOutcome::Done, StepOutcome::Done, StepOutcome::Done]);
    assert_eq!(steps, vec![SyncStep::Fetch, SyncStep::Pull, SyncStep::Push]);
    assert_eq!(state, SyncState::Succeeded);
    assert_eq!(state.result(), Some(Ok(())));
}

#[test]
fn sync_where_pull_fails_never_pushes_and_reports_pull() {
    let (steps, state) = run(&[StepOutcome::Done, StepOutcome::Failed, StepOutcome::Done]);
    assert_eq!(steps, vec![SyncStep::Fetch, SyncStep::Pull]);
    assert!(!steps.contains(&SyncStep::Push));
    let failure = SyncFailure { step: SyncStep::Pull, error: CoreError::GitError };
    assert_eq!(state, SyncState::Stopped(failure));
    assert_eq!(state.result(), Some(Err(failure)));
    assert_eq!(failure.step.name(), "pull");
    assert_eq!(failure.message(), s("sync failed at pull: git failed"));
}

#[test]
fn sync_where_fetch_fails_runs_nothing_else() {
    let (steps, state) = run(&[StepOutcome::NetworkFailed]);
    assert_eq!(steps, vec![SyncStep::Fetch]);
    assert_eq!(
        state,
        SyncState::Stopped(SyncFailure { step: SyncStep::Fetch, error: CoreError::NetworkError })
    );
}

#[test]
fn sync_where_push_fails_reports_push() {
    let (steps, state) = run(&[StepOutcome::Done, StepOutcome::Done, StepOutcome::AuthFailed]);
    assert_eq!(steps, vec![SyncStep::Fetch, SyncStep::Pull, SyncStep::Push]);
    let failure = SyncFailure { step: SyncStep::Push, error: CoreError::AuthError };
    assert_eq!(state, SyncState::Stopped(failure));
    assert_eq!(failure.message(), s("sync failed at push: authentication with the remote failed"));
}

#[test]
fn ended_sync_stays_as_it_is() {
    let stopped = SyncState::Stopped(SyncFailure { step: SyncStep::Pull, error: CoreError::GitError });
    for outcome in [StepOutcome::Done, StepOutcome::AuthFailed, StepOutcome::NetworkFailed, StepOutcome::Failed] {
        assert_eq!(stopped.advance(outcome), stopped);
        assert_eq!(SyncState::Succeeded.advance(outcome), SyncState::Succeeded);
    }
    assert_eq!(stopped.running(), None);
    assert_eq!(SyncState::Succeeded.running(), None);
}

#[test]
fn running_sync_has_no_result() {
    assert_eq!(SyncState::start(), SyncState::Running(SyncStep::Fetch));
    assert_eq!(SyncState::start().result(), None);
    assert_eq!(SyncState::start().running(), Some(SyncStep::Fetch));
    assert_eq!(SyncState::Running(SyncStep::Push).running(), Some(SyncStep::Push));
}

#[test]
fn every_failure_of_every_step_stops_at_that_step() {
    for (step, before) in [(SyncStep::Fetch, 0), (SyncStep::Pull, 1), (SyncStep::Push, 2)] {
        for (outcome, error) in [
            (StepOutcome::AuthFailed, CoreError::AuthError),
            (StepOutcome::NetworkFailed, CoreError::NetworkError),
            (StepOutcome::Failed, CoreError::GitError),
        ] {
            let mut outcomes = vec![StepOutcome::Done; before];
            outcomes.push(outcome);
            let (steps, state) = run(&outcomes);
            assert_eq!(steps.len(), before + 1);
            assert_eq!(state, SyncState::Stopped(SyncFailure { step, error }));
        }
    }
}

#[test]
fn step_names() {
    assert_eq!(SyncStep::Fetch.name(), "fetch");
    assert_eq!(SyncStep::Pull.name(), "pull");
    assert_eq!(SyncStep::Push.name(), "push");
}

#[test]
fn outcome_of_a_single_step() {
    assert_eq!(StepOutcome::Done.result(), Ok(()));
    assert_eq!(StepOutcome::AuthFailed.result(), Err(CoreError::AuthError));
    assert_eq!(StepOutcome::NetworkFailed.result(), Err(CoreError::NetworkError));
    assert_eq!(StepOutcome::Failed.result(), Err(CoreError::GitError));
}

#[test]
fn pull_reconciles_by_merge() {
    assert_eq!(pull_strategy(), Reconcile::Merge);
}

#[test]
fn diagnostics_that_speak_of_credentials() {
    for text in [
        "remote: Invalid username or password.\nfatal: Authentication failed for 'https://example.com/r.git/'",
        "fatal: could not read Username for 'https://example.com': terminal prompts disabled",
        "fatal: could not read Password for 'https://u@example.com': No such device",
        "git@example.com: Permission denied (publickey).\nfatal: Could not read from remote repository.",
        "terminal prompts disabled",
    ] {
        assert_eq!(classify_failure(&s(text)), StepOutcome::AuthFailed, "{}", text);
    }
}

#[test]
fn diagnostics_that_speak_of_the_network() {
    for text in [
        "fatal: unable to access 'https://example.com/r.git/': Could not resolve host: example.com",
        "ssh: connect to host example.com port 22: Connection refused",
        "ssh: connect to host example.com port 22: Connection timed out",
        "ssh: connect to host example.com port 22: Network is unreachable",
        "fatal: Could not read from remote repository.",
    ] {
        assert_eq!(classify_failure(&s(text)), StepOutcome::NetworkFailed, "{}", text);
    }
}

#[test]
fn other_diagnostics_are_plain_failures() {
    for text in [
        "",
        "CONFLICT (content): Merge conflict in a.txt\nAutomatic merge failed; fix conflicts and then commit the result.",
        "! [rejected]        main -> main (non-fast-forward)",
        "authentication failed",
        "Authentication faile",
    ] {
        assert_eq!(classify_failure(&s(text)), StepOutcome::Failed, "{}", text);
    }
}
