use gitcore::error::{CoreError, ErrorKind};

fn all() -> Vec<CoreError> {
    vec![
        CoreError::NotFound,
        CoreError::IoError,
        CoreError::PathNotFound,
        CoreError::EmptyMessage,
        CoreError::NothingStaged,
        CoreError::GitError,
        CoreError::CommitNotFound,
        CoreError::InvalidName,
        CoreError::AlreadyExists,
        CoreError::BranchNotFound,
        CoreError::DirtyWorkingTree,
        CoreError::AuthError,
        CoreError::NetworkError,
        CoreError::NoRemoteConfigured,
        CoreError::NotGitHub,
        CoreError::GitHubApiError { status: 500 },
    ]
}

#[test]
fn kinds_of_errors() {
    assert_eq!(CoreError::NotFound.kind(), ErrorKind::NotFound);
    assert_eq!(CoreError::PathNotFound.kind(), ErrorKind::NotFound);
    assert_eq!(CoreError::CommitNotFound.kind(), ErrorKind::NotFound);
    assert_eq!(CoreError::BranchNotFound.kind(), ErrorKind::NotFound);
    assert_eq!(CoreError::InvalidName.kind(), ErrorKind::InvalidInput);
    assert_eq!(CoreError::EmptyMessage.kind(), ErrorKind::InvalidInput);
    assert_eq!(CoreError::NothingStaged.kind(), ErrorKind::Conflict);
    assert_eq!(CoreError::DirtyWorkingTree.kind(), ErrorKind::Conflict);
    assert_eq!(CoreError::AlreadyExists.kind(), ErrorKind::Conflict);
    assert_eq!(CoreError::IoError.kind(), ErrorKind::IoError);
    assert_eq!(CoreError::GitError.kind(), ErrorKind::IoError);
    assert_eq!(CoreError::AuthError.kind(), ErrorKind::AuthError);
    assert_eq!(CoreError::NetworkError.kind(), ErrorKind::NetworkError);
    assert_eq!(CoreError::NoRemoteConfigured.kind(), ErrorKind::NoRemoteConfigured);
    assert_eq!(CoreError::NotGitHub.kind(), ErrorKind::NotGitHub);
    assert_eq!(CoreError::GitHubApiError { status: 404 }.kind(), ErrorKind::GitHubApiError);
}

#[test]
fn every_error_has_a_message() {
    for e in all() {
        assert!(!e.message().is_empty(), "{:?}", e);
    }
}

#[test]
fn messages_of_errors() {
    assert_eq!(CoreError::EmptyMessage.message(), "commit message is empty");
    assert_eq!(CoreError::NothingStaged.message(), "nothing is staged for commit");
    assert_eq!(CoreError::BranchNotFound.message(), "branch not found");
    assert_eq!(CoreError::NotGitHub.message(), "the remote is not hosted on GitHub");
    assert_eq!(
        CoreError::GitHubApiError { status: 0 }.message(),
        "GitHub API request failed with status 0"
    );
    assert_eq!(
        CoreError::GitHubApiError { status: 65535 }.message(),
        "GitHub API request failed with status 65535"
    );
}

#[test]
fn only_api_errors_carry_a_status() {
    for e in all() {
        match e {
            CoreError::GitHubApiError { status } => assert_eq!(e.status(), Some(status)),
            _ => assert_eq!(e.status(), None),
        }
    }
}
