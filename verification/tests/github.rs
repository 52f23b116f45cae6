use gitcore::error::{CoreError, ErrorKind};
use gitcore::github::{
    check_status, is_github_remote, parse_remote, plan_request, request_url, resolve_remote,
    resolve_repo, Endpoint, GitHubRequest, RepoSlug,
};

fn s(text: &str) -> String {
    text.to_string()
}

fn slug(owner: &str, repo: &str) -> RepoSlug {
    RepoSlug { owner: s(owner), repo: s(repo) }
}

#[test]
fn remote_urls_of_github_repositories() {
    for url in [
        "https://github.com/rust-lang/rust",
        "https://github.com/rust-lang/rust.git",
        "https://github.com/rust-lang/rust/",
        "https://github.com/rust-lang/rust.git/",
        "http://github.com/rust-lang/rust.git",
        "ssh://git@github.com/rust-lang/rust.git",
        "git://github.com/rust-lang/rust.git",
        "git@github.com:rust-lang/rust.git",
        "git@github.com:rust-lang/rust",
    ] {
        assert_eq!(parse_remote(&s(url)), Ok(slug("rust-lang", "rust")), "{}", url);
        assert!(is_github_remote(&s(url)), "{}", url);
    }
}

#[test]
fn remote_urls_that_are_not_github_repositories() {
    for url in [
        "",
        "https://gitlab.com/owner/repo.git",
        "git@bitbucket.org:owner/repo.git",
        "https://github.com.evil.example/owner/repo",
        "https://example.com/github.com/owner/repo",
        "/srv/git/repo.git",
        "https://github.com/",
        "https://github.com/owner",
        "https://github.com/owner/",
        "https://github.com//repo",
        "https://github.com/owner/repo/extra",
        "https://github.com/owner/.git",
        "git@github.com/owner/repo.git",
        "HTTPS://GITHUB.COM/owner/repo",
        " https://github.com/owner/repo",
    ] {
        assert_eq!(parse_remote(&s(url)), Err(CoreError::NotGitHub), "{:?}", url);
        assert!(!is_github_remote(&s(url)), "{:?}", url);
    }
}

#[test]
fn only_one_git_suffix_is_taken_off() {
    assert_eq!(parse_remote(&s("https://github.com/o/r.git.git")), Ok(slug("o", "r.git")));
    assert_eq!(parse_remote(&s("https://github.com/o/r//")), Err(CoreError::NotGitHub));
}

#[test]
fn owner_and_repository_may_hold_any_character_but_a_slash() {
    assert_eq!(parse_remote(&s("git@github.com:büro/ä.ö")), Ok(slug("büro", "ä.ö")));
}

#[test]
fn resolve_remote_picks_the_first_remote_on_github() {
    let remotes = vec![
        s("https://gitlab.com/o/r.git"),
        s("git@github.com:o/first.git"),
        s("https://github.com/o/second"),
    ];
    assert_eq!(resolve_remote(&remotes), Some(s("git@github.com:o/first.git")));
    assert_eq!(resolve_repo(&remotes), Ok(slug("o", "first")));
}

#[test]
fn resolve_remote_without_a_github_remote_is_none() {
    assert_eq!(resolve_remote(&vec![s("https://gitlab.com/o/r.git")]), None);
    assert_eq!(resolve_remote(&Vec::new()), None);
}

#[test]
fn resolve_repo_without_remotes_fails_with_no_remote_configured() {
    assert_eq!(resolve_repo(&Vec::new()), Err(CoreError::NoRemoteConfigured));
}

#[test]
fn resolve_repo_without_a_github_remote_fails_with_not_github() {
    let remotes = vec![s("https://gitlab.com/o/r.git"), s("/srv/git/r.git")];
    assert_eq!(resolve_repo(&remotes), Err(CoreError::NotGitHub));
}

#[test]
fn request_urls() {
    let repo = slug("octo", "cat");
    assert_eq!(request_url(&repo, Endpoint::Issues), s("https://api.github.com/repos/octo/cat/issues"));
    assert_eq!(request_url(&repo, Endpoint::PullRequests), s("https://api.github.com/repos/octo/cat/pulls"));
    assert_eq!(
        request_url(&repo, Endpoint::PullRequestDiff(42)),
        s("https://api.github.com/repos/octo/cat/pulls/42/files")
    );
    assert_eq!(
        request_url(&repo, Endpoint::PullRequestComments(7)),
        s("https://api.github.com/repos/octo/cat/pulls/7/comments")
    );
    assert_eq!(
        request_url(&repo, Endpoint::PullRequestDiff(0)),
        s("https://api.github.com/repos/octo/cat/pulls/0/files")
    );
    assert_eq!(
        request_url(&repo, Endpoint::PullRequestComments(u64::MAX)),
        s("https://api.github.com/repos/octo/cat/pulls/18446744073709551615/comments")
    );
}

#[test]
fn issues_on_a_remote_that_is_not_github_fail_before_any_request() {
    let remotes = vec![s("https://gitlab.com/o/r.git")];
    let planned = plan_request(&remotes, Endpoint::Issues, None);
    assert_eq!(planned, Err(CoreError::NotGitHub));
    assert_eq!(planned.unwrap_err().kind(), ErrorKind::NotGitHub);
    for endpoint in [Endpoint::PullRequests, Endpoint::PullRequestDiff(1), Endpoint::PullRequestComments(1)] {
        assert_eq!(plan_request(&remotes, endpoint, Some(&s("token"))), Err(CoreError::NotGitHub));
    }
}

#[test]
fn request_without_a_remote_fails_with_no_remote_configured() {
    for endpoint in [
        Endpoint::Issues,
        Endpoint::PullRequests,
        Endpoint::PullRequestDiff(1),
        Endpoint::PullRequestComments(1),
    ] {
        assert_eq!(plan_request(&Vec::new(), endpoint, None), Err(CoreError::NoRemoteConfigured));
    }
}

#[test]
fn planned_request_is_anonymous_without_a_token() {
    let remotes = vec![s("git@github.com:octo/cat.git")];
    assert_eq!(
        plan_request(&remotes, Endpoint::Issues, None),
        Ok(GitHubRequest { url: s("https://api.github.com/repos/octo/cat/issues"), authorization: None })
    );
}

#[test]
fn planned_request_carries_the_token_as_bearer() {
    let remotes = vec![s("https://example.com/x.git"), s("https://github.com/octo/cat")];
    assert_eq!(
        plan_request(&remotes, Endpoint::PullRequestComments(12), Some(&s("abc123"))),
        Ok(GitHubRequest {
            url: s("https://api.github.com/repos/octo/cat/pulls/12/comments"),
            authorization: Some(s("Bearer abc123")),
        })
    );
}

#[test]
fn status_of_an_answer() {
    assert_eq!(check_status(200), Ok(()));
    assert_eq!(check_status(204), Ok(()));
    assert_eq!(check_status(299), Ok(()));
    assert_eq!(check_status(199), Err(CoreError::GitHubApiError { status: 199 }));
    assert_eq!(check_status(300), Err(CoreError::GitHubApiError { status: 300 }));
    assert_eq!(check_status(401), Err(CoreError::GitHubApiError { status: 401 }));
    assert_eq!(check_status(403), Err(CoreError::GitHubApiError { status: 403 }));
    assert_eq!(check_status(429), Err(CoreError::GitHubApiError { status: 429 }));
    assert_eq!(check_status(0), Err(CoreError::GitHubApiError { status: 0 }));
    assert_eq!(check_status(u16::MAX), Err(CoreError::GitHubApiError { status: u16::MAX }));
}

#[test]
fn api_error_preserves_the_status() {
    let e = check_status(403).unwrap_err();
    assert_eq!(e.status(), Some(403));
    assert_eq!(e.kind(), ErrorKind::GitHubApiError);
    assert_eq!(e.message(), s("GitHub API request failed with status 403"));
}
