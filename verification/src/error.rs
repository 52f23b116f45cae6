//! Errors of the core: what went wrong, and the coarse kind by which a
//! caller decides how to react.

use crate::text::{decimal, render_decimal};
use vstd::prelude::*;
use vstd::string::*;

verus! {

/// The coarse classes of failure that a caller tells apart.
#[derive(Clone, Copy, Debug, PartialEq, Eq, Structural)]
pub enum ErrorKind {
    /// A workspace, repository, commit, branch or path is absent.
    NotFound,
    /// The caller's input is malformed.
    InvalidInput,
    /// The request is well formed but the repository's state forbids it.
    Conflict,
    /// The file system or the underlying tool failed.
    IoError,
    /// The remote refused the credentials.
    AuthError,
    /// The remote could not be reached.
    NetworkError,
    /// The GitHub API answered with a failure.
    GitHubApiError,
    /// The repository has no remote.
    NoRemoteConfigured,
    /// The repository's remote is not hosted on GitHub.
    NotGitHub,
}

/// Every failure that an operation of the core reports.
#[derive(Clone, Copy, Debug, PartialEq, Eq, Structural)]
pub enum CoreError {
    /// No repository encloses the workspace or lies within it; or the
    /// workspace is unknown.
    NotFound,
    /// A directory could not be read.
    IoError,
    /// The path is not known to the working tree or the index.
    PathNotFound,
    /// The commit message is blank.
    EmptyMessage,
    /// The index holds no staged change.
    NothingStaged,
    /// The underlying tool failed, for instance for want of an identity.
    GitError,
    /// No commit has the given identifier.
    CommitNotFound,
    /// The branch name is not a valid reference name.
    InvalidName,
    /// A branch of that name exists already.
    AlreadyExists,
    /// No branch has the given name.
    BranchNotFound,
    /// Uncommitted changes stand in the way of a checkout.
    DirtyWorkingTree,
    /// The remote refused the credentials.
    AuthError,
    /// The remote could not be reached.
    NetworkError,
    /// The repository has no remote.
    NoRemoteConfigured,
    /// The repository's remote is not hosted on GitHub.
    NotGitHub,
    /// The GitHub API answered with the given HTTP status.
    GitHubApiError { status: u16 },
}

impl CoreError {
    /// The class of this error.
    pub open spec fn kind_spec(self) -> ErrorKind {
        match self {
            CoreError::NotFound => ErrorKind::NotFound,
            CoreError::PathNotFound => ErrorKind::NotFound,
            CoreError::CommitNotFound => ErrorKind::NotFound,
            CoreError::BranchNotFound => ErrorKind::NotFound,
            CoreError::InvalidName => ErrorKind::InvalidInput,
            CoreError::EmptyMessage => ErrorKind::InvalidInput,
            CoreError::NothingStaged => ErrorKind::Conflict,
            CoreError::DirtyWorkingTree => ErrorKind::Conflict,
            CoreError::AlreadyExists => ErrorKind::Conflict,
            CoreError::IoError => ErrorKind::IoError,
            CoreError::GitError => ErrorKind::IoError,
            CoreError::AuthError => ErrorKind::AuthError,
            CoreError::NetworkError => ErrorKind::NetworkError,
            CoreError::NoRemoteConfigured => ErrorKind::NoRemoteConfigured,
            CoreError::NotGitHub => ErrorKind::NotGitHub,
            CoreError::GitHubApiError { .. } => ErrorKind::GitHubApiError,
        }
    }

    /// The fixed part of the message of this error.
    pub open spec fn summary_spec(self) -> Seq<char> {
        match self {
            CoreError::NotFound => "no git repository found for this workspace"@,
            CoreError::IoError => "a directory could not be read"@,
            CoreError::PathNotFound => "path is not known to the working tree or the index"@,
            CoreError::EmptyMessage => "commit message is empty"@,
            CoreError::NothingStaged => "nothing is staged for commit"@,
            CoreError::GitError => "git failed"@,
            CoreError::CommitNotFound => "commit not found"@,
            CoreError::InvalidName => "branch name is not valid"@,
            CoreError::AlreadyExists => "a branch of that name already exists"@,
            CoreError::BranchNotFound => "branch not found"@,
            CoreError::DirtyWorkingTree => "uncommitted changes would be overwritten by checkout"@,
            CoreError::AuthError => "authentication with the remote failed"@,
            CoreError::NetworkError => "the remote could not be reached"@,
            CoreError::NoRemoteConfigured => "no remote is configured"@,
            CoreError::NotGitHub => "the remote is not hosted on GitHub"@,
            CoreError::GitHubApiError { .. } => "GitHub API request failed with status "@,
        }
    }

    /// The message of this error: its summary, followed for a GitHub API
    /// failure by the HTTP status in decimal.
    pub open spec fn message_spec(self) -> Seq<char> {
        match self {
            CoreError::GitHubApiError { status } => self.summary_spec() + decimal(status as nat),
            _ => self.summary_spec(),
        }
    }

    /// The HTTP status that came with this error, if it has one.
    pub open spec fn status_spec(self) -> Option<u16> {
        match self {
            CoreError::GitHubApiError { status } => Some(status),
            _ => None,
        }
    }

    /// Returns the class of this error.
    pub fn kind(&self) -> (k: ErrorKind)
        ensures
            k == self.kind_spec(),
    {
        match self {
            CoreError::NotFound => ErrorKind::NotFound,
            CoreError::PathNotFound => ErrorKind::NotFound,
            CoreError::CommitNotFound => ErrorKind::NotFound,
            CoreError::BranchNotFound => ErrorKind::NotFound,
            CoreError::InvalidName => ErrorKind::InvalidInput,
            CoreError::EmptyMessage => ErrorKind::InvalidInput,
            CoreError::NothingStaged => ErrorKind::Conflict,
            CoreError::DirtyWorkingTree => ErrorKind::Conflict,
            CoreError::AlreadyExists => ErrorKind::Conflict,
            CoreError::IoError => ErrorKind::IoError,
            CoreError::GitError => ErrorKind::IoError,
            CoreError::AuthError => ErrorKind::AuthError,
            CoreError::NetworkError => ErrorKind::NetworkError,
            CoreError::NoRemoteConfigured => ErrorKind::NoRemoteConfigured,
            CoreError::NotGitHub => ErrorKind::NotGitHub,
            CoreError::GitHubApiError { .. } => ErrorKind::GitHubApiError,
        }
    }

    fn summary(&self) -> (s: &'static str)
        ensures
            s@ == self.summary_spec(),
    {
        match self {
            CoreError::NotFound => "no git repository found for this workspace",
            CoreError::IoError => "a directory could not be read",
            CoreError::PathNotFound => "path is not known to the working tree or the index",
            CoreError::EmptyMessage => "commit message is empty",
            CoreError::NothingStaged => "nothing is staged for commit",
            CoreError::GitError => "git failed",
            CoreError::CommitNotFound => "commit not found",
            CoreError::InvalidName => "branch name is not valid",
            CoreError::AlreadyExists => "a branch of that name already exists",
            CoreError::BranchNotFound => "branch not found",
            CoreError::DirtyWorkingTree => "uncommitted changes would be overwritten by checkout",
            CoreError::AuthError => "authentication with the remote failed",
            CoreError::NetworkError => "the remote could not be reached",
            CoreError::NoRemoteConfigured => "no remote is configured",
            CoreError::NotGitHub => "the remote is not hosted on GitHub",
            CoreError::GitHubApiError { .. } => "GitHub API request failed with status ",
        }
    }

    /// Returns the human-readable message of this error.
    pub fn message(&self) -> (m: String)
        ensures
            m@ == self.message_spec(),
    {
        let mut m = String::from_str(self.summary());
        match self {
            CoreError::GitHubApiError { status } => {
                let digits = render_decimal(*status as u64);
                m.append(digits.as_str());
            },
            _ => {},
        }
        m
    }

    /// Returns the HTTP status that came with this error, if it has one.
    pub fn status(&self) -> (s: Option<u16>)
        ensures
            s == self.status_spec(),
    {
        match self {
            CoreError::GitHubApiError { status } => Some(*status),
            _ => None,
        }
    }
}

} // verus!
