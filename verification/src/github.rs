//! GitHub integration: which GitHub repository a remote stands for, the
//! request that fetches issues, pull requests, the files of a pull request or
//! its review comments, and what the HTTP status of the answer means.
//!
//! Nothing here talks to the network. A request is planned only once the
//! remote has been resolved to an owner and a repository, so a repository
//! without a GitHub remote never gets as far as a request.

use crate::error::CoreError;
use crate::text::{
    decimal, ends_with, has_suffix, matches_at, render_decimal, starts_with, to_chars, views,
};
use vstd::prelude::*;
use vstd::string::*;

verus! {

/// The owner and the name of a GitHub repository.
#[derive(Clone, Debug, PartialEq, Eq)]
pub struct RepoSlug {
    pub owner: String,
    pub repo: String,
}

/// The mathematical model of a [`RepoSlug`].
pub struct SlugView {
    pub owner: Seq<char>,
    pub repo: Seq<char>,
}

impl View for RepoSlug {
    type V = SlugView;

    open spec fn view(&self) -> SlugView {
        SlugView { owner: self.owner@, repo: self.repo@ }
    }
}

/// What follows the host in the URL of a remote hosted on GitHub, in any of
/// the forms `https://github.com/…`, `http://github.com/…`,
/// `ssh://git@github.com/…`, `git://github.com/…` and `git@github.com:…`;
/// `None` for any other URL.
pub open spec fn github_path(url: Seq<char>) -> Option<Seq<char>> {
    if starts_with(url, "https://github.com/"@) {
        Some(url.skip("https://github.com/"@.len() as int))
    } else if starts_with(url, "http://github.com/"@) {
        Some(url.skip("http://github.com/"@.len() as int))
    } else if starts_with(url, "ssh://git@github.com/"@) {
        Some(url.skip("ssh://git@github.com/"@.len() as int))
    } else if starts_with(url, "git://github.com/"@) {
        Some(url.skip("git://github.com/"@.len() as int))
    } else if starts_with(url, "git@github.com:"@) {
        Some(url.skip("git@github.com:"@.len() as int))
    } else {
        None
    }
}

/// `s` without `suffix` at its end, if it ends with it.
pub open spec fn without_suffix(s: Seq<char>, suffix: Seq<char>) -> Seq<char> {
    if ends_with(s, suffix) {
        s.take(s.len() - suffix.len())
    } else {
        s
    }
}

/// The index of the first slash of `s`, or the length of `s` if it has none.
pub open spec fn first_slash(s: Seq<char>) -> int
    decreases s.len(),
{
    if s.len() == 0 || s[0] == '/' {
        0
    } else {
        1 + first_slash(s.drop_first())
    }
}

/// Owner and repository of a path of the form `owner/repo`, with neither
/// part empty and no further slash.
pub open spec fn slug_of(path: Seq<char>) -> Option<SlugView> {
    let k = first_slash(path);
    if 0 < k < path.len() - 1 && !path.skip(k + 1).contains('/') {
        Some(SlugView { owner: path.take(k), repo: path.skip(k + 1) })
    } else {
        None
    }
}

/// The GitHub repository that a remote URL stands for: the URL is hosted on
/// GitHub, and what follows the host is `owner/repo`, optionally followed by
/// `.git` and then optionally by a slash.
pub open spec fn github_slug(url: Seq<char>) -> Option<SlugView> {
    match github_path(url) {
        Some(path) => slug_of(without_suffix(without_suffix(path, "/"@), ".git"@)),
        None => None,
    }
}

/// The first remote of a list that stands for a GitHub repository.
pub open spec fn first_hosted(remotes: Seq<Seq<char>>) -> Option<int>
    decreases remotes.len(),
{
    if remotes.len() == 0 {
        None
    } else if github_slug(remotes[0]) is Some {
        Some(0)
    } else {
        match first_hosted(remotes.drop_first()) {
            Some(i) => Some(i + 1),
            None => None,
        }
    }
}

/// What a lookup of the GitHub repository of a list of remotes gives: the
/// repository of the first remote hosted on GitHub; `NoRemoteConfigured` for
/// an empty list; `NotGitHub` if there are remotes but none on GitHub.
pub open spec fn repo_of(remotes: Seq<Seq<char>>) -> Result<SlugView, CoreError> {
    if remotes.len() == 0 {
        Err(CoreError::NoRemoteConfigured)
    } else {
        match first_hosted(remotes) {
            Some(i) => Ok(github_slug(remotes[i])->0),
            None => Err(CoreError::NotGitHub),
        }
    }
}

/// A place before which there is no slash, and which holds one or is the
/// end of the text, is the place of the first slash.
pub proof fn lemma_first_slash(s: Seq<char>, k: int)
    requires
        0 <= k <= s.len(),
        forall|j: int| 0 <= j < k ==> s[j] != '/',
        k == s.len() || s[k] == '/',
    ensures
        first_slash(s) == k,
    decreases s.len(),
{
    if s.len() == 0 || s[0] == '/' {
    } else {
        let t = s.drop_first();
        assert forall|j: int| 0 <= j < k - 1 implies t[j] != '/' by {
            assert(t[j] == s[j + 1]);
        }
        lemma_first_slash(t, k - 1);
    }
}

/// The first remote on GitHub is on GitHub, and no remote before it is; if
/// there is none, no remote is on GitHub.
pub proof fn lemma_first_hosted(remotes: Seq<Seq<char>>)
    ensures
        match first_hosted(remotes) {
            Some(i) => 0 <= i < remotes.len() && github_slug(remotes[i]) is Some && forall|j: int|
                0 <= j < i ==> github_slug(#[trigger] remotes[j]) is None,
            None => forall|j: int| 0 <= j < remotes.len() ==> github_slug(#[trigger] remotes[j]) is None,
        },
    decreases remotes.len(),
{
    if remotes.len() > 0 && github_slug(remotes[0]) is None {
        let t = remotes.drop_first();
        lemma_first_hosted(t);
        match first_hosted(t) {
            Some(i) => {
                assert(t[i] == remotes[i + 1]);
                assert forall|j: int| 0 <= j < i + 1 implies github_slug(#[trigger] remotes[j]) is None by {
                    if j > 0 {
                        assert(remotes[j] == t[j - 1]);
                    }
                }
            },
            None => {
                assert forall|j: int| 0 <= j < remotes.len() implies github_slug(
                    #[trigger] remotes[j],
                ) is None by {
                    if j > 0 {
                        assert(remotes[j] == t[j - 1]);
                    }
                }
            },
        }
    }
}

fn prefix_len(url: &Vec<char>, prefix: &str) -> (r: Option<usize>)
    ensures
        match r {
            Some(n) => starts_with(url@, prefix@) && n == prefix@.len() && n <= url.len(),
            None => !starts_with(url@, prefix@),
        },
{
    let p = to_chars(prefix);
    if matches_at(url, &p, 0) {
        Some(p.len())
    } else {
        None
    }
}

fn path_start(url: &Vec<char>) -> (r: Option<usize>)
    ensures
        match r {
            Some(a) => a <= url.len() && github_path(url@) == Some(url@.skip(a as int)),
            None => github_path(url@) is None,
        },
{
    if let Some(n) = prefix_len(url, "https://github.com/") {
        return Some(n);
    }
    if let Some(n) = prefix_len(url, "http://github.com/") {
        return Some(n);
    }
    if let Some(n) = prefix_len(url, "ssh://git@github.com/") {
        return Some(n);
    }
    if let Some(n) = prefix_len(url, "git://github.com/") {
        return Some(n);
    }
    if let Some(n) = prefix_len(url, "git@github.com:") {
        return Some(n);
    }
    None
}

fn strip_suffix(s: &mut Vec<char>, suffix: &str)
    ensures
        final(s)@ == without_suffix(old(s)@, suffix@),
{
    let p = to_chars(suffix);
    if has_suffix(s, &p) {
        let n = s.len() - p.len();
        s.truncate(n);
    }
}

fn slug_bounds(url: &Vec<char>) -> (r: Option<(usize, usize, usize)>)
    ensures
        match r {
            Some((a, k, b)) => a < k && k + 1 < b && b <= url.len() && github_slug(url@) == Some(
                SlugView {
                    owner: url@.subrange(a as int, k as int),
                    repo: url@.subrange(k + 1, b as int),
                },
            ),
            None => github_slug(url@) is None,
        },
{
    let a = match path_start(url) {
        Some(a) => a,
        None => {
            return None;
        },
    };
    let mut path: Vec<char> = Vec::new();
    let mut i: usize = a;
    while i < url.len()
        invariant
            a <= i <= url.len(),
            path@ == url@.subrange(a as int, i as int),
        decreases url.len() - i,
    {
        path.push(url[i]);
        assert(url@.subrange(a as int, i + 1) =~= url@.subrange(a as int, i as int).push(url@[i as int]));
        i += 1;
    }
    assert(path@ =~= url@.skip(a as int));
    strip_suffix(&mut path, "/");
    strip_suffix(&mut path, ".git");
    let m = path.len();
    assert(path@ =~= url@.subrange(a as int, a + m));
    assert(github_slug(url@) == slug_of(path@));
    let mut k: usize = 0;
    while k < m && path[k] != '/'
        invariant
            m == path.len(),
            k <= m,
            forall|j: int| 0 <= j < k ==> path@[j] != '/',
        decreases m - k,
    {
        k += 1;
    }
    proof {
        lemma_first_slash(path@, k as int);
    }
    if k == 0 || k >= m || k + 1 >= m {
        return None;
    }
    let mut j: usize = k + 1;
    while j < m
        invariant
            m == path.len(),
            k + 1 <= j <= m,
            first_slash(path@) == k,
            github_slug(url@) == slug_of(path@),
            forall|t: int| k + 1 <= t < j ==> path@[t] != '/',
        decreases m - j,
    {
        if path[j] == '/' {
            assert(path@.skip(k + 1)[j - (k + 1)] == '/');
            return None;
        }
        j += 1;
    }
    assert(!path@.skip(k + 1).contains('/')) by {
        let rest = path@.skip(k + 1);
        if rest.contains('/') {
            let t = choose|t: int| 0 <= t < rest.len() && #[trigger] rest[t] == '/';
            assert(path@[k + 1 + t] == '/');
        }
    }
    assert(path@.take(k as int) =~= url@.subrange(a as int, a + k));
    assert(path@.skip(k + 1) =~= url@.subrange(a + k + 1, a + m));
    Some((a, a + k, a + m))
}

/// Reads the GitHub repository off a remote URL. Fails with `NotGitHub` if
/// the URL does not stand for a repository hosted on GitHub.
pub fn parse_remote(url: &String) -> (r: Result<RepoSlug, CoreError>)
    ensures
        match github_slug(url@) {
            Some(slug) => r is Ok && r->Ok_0@ == slug,
            None => r == Err::<RepoSlug, CoreError>(CoreError::NotGitHub),
        },
{
    let chars = to_chars(url.as_str());
    match slug_bounds(&chars) {
        Some((a, k, b)) => {
            let owner = url.as_str().substring_char(a, k).to_owned();
            let repo = url.as_str().substring_char(k + 1, b).to_owned();
            Ok(RepoSlug { owner, repo })
        },
        None => Err(CoreError::NotGitHub),
    }
}

/// Tells whether a remote URL stands for a repository hosted on GitHub.
pub fn is_github_remote(url: &String) -> (r: bool)
    ensures
        r == github_slug(url@) is Some,
{
    let chars = to_chars(url.as_str());
    slug_bounds(&chars).is_some()
}

fn find_hosted(remotes: &Vec<String>) -> (r: Option<usize>)
    ensures
        match r {
            Some(i) => first_hosted(views(remotes@)) == Some(i as int) && i < remotes.len(),
            None => first_hosted(views(remotes@)) is None,
        },
{
    let ghost all = views(remotes@);
    let n = remotes.len();
    let mut i: usize = 0;
    while i < n
        invariant
            n == remotes.len(),
            i <= n,
            all == views(remotes@),
            forall|j: int| 0 <= j < i ==> github_slug(#[trigger] all[j]) is None,
        decreases n - i,
    {
        assert(all[i as int] == remotes@[i as int]@);
        if is_github_remote(&remotes[i]) {
            proof {
                lemma_first_hosted(all);
            }
            return Some(i);
        }
        i += 1;
    }
    proof {
        lemma_first_hosted(all);
    }
    None
}

/// Returns the remote that stands for the repository on GitHub: the first of
/// the configured remotes that is hosted there, or `None` if none is, which
/// is no error.
pub fn resolve_remote(remotes: &Vec<String>) -> (r: Option<String>)
    ensures
        match first_hosted(views(remotes@)) {
            Some(i) => r is Some && r->0@ == remotes@[i]@,
            None => r is None,
        },
{
    match find_hosted(remotes) {
        Some(i) => Some(remotes[i].clone()),
        None => None,
    }
}

/// Resolves the configured remotes to a GitHub repository. Fails with
/// `NoRemoteConfigured` if there is no remote, and with `NotGitHub` if no
/// remote is hosted on GitHub.
pub fn resolve_repo(remotes: &Vec<String>) -> (r: Result<RepoSlug, CoreError>)
    ensures
        match repo_of(views(remotes@)) {
            Ok(slug) => r is Ok && r->Ok_0@ == slug,
            Err(e) => r == Err::<RepoSlug, CoreError>(e),
        },
{
    if remotes.len() == 0 {
        return Err(CoreError::NoRemoteConfigured);
    }
    proof {
        lemma_first_hosted(views(remotes@));
    }
    match find_hosted(remotes) {
        Some(i) => {
            assert(views(remotes@)[i as int] == remotes@[i as int]@);
            parse_remote(&remotes[i])
        },
        None => Err(CoreError::NotGitHub),
    }
}

/// What is asked of the GitHub API.
#[derive(Clone, Copy, Debug, PartialEq, Eq, Structural)]
pub enum Endpoint {
    /// The issues of the repository.
    Issues,
    /// The pull requests of the repository.
    PullRequests,
    /// The files that a pull request changes, each with its diff.
    PullRequestDiff(u64),
    /// The review comments of a pull request.
    PullRequestComments(u64),
}

impl Endpoint {
    /// The end of the URL for this endpoint, after the repository.
    pub open spec fn path(self) -> Seq<char> {
        match self {
            Endpoint::Issues => "/issues"@,
            Endpoint::PullRequests => "/pulls"@,
            Endpoint::PullRequestDiff(n) => "/pulls/"@ + decimal(n as nat) + "/files"@,
            Endpoint::PullRequestComments(n) => "/pulls/"@ + decimal(n as nat) + "/comments"@,
        }
    }
}

/// The URL of the request for `endpoint` of the repository `slug`.
pub open spec fn api_url(slug: SlugView, endpoint: Endpoint) -> Seq<char> {
    "https://api.github.com/repos/"@ + slug.owner + "/"@ + slug.repo + endpoint.path()
}

/// Builds the URL of the request for `endpoint` of the repository `slug`.
pub fn request_url(slug: &RepoSlug, endpoint: Endpoint) -> (url: String)
    ensures
        url@ == api_url(slug@, endpoint),
{
    let mut url = String::from_str("https://api.github.com/repos/");
    url.append(slug.owner.as_str());
    url.append("/");
    url.append(slug.repo.as_str());
    let ghost base = url@;
    match endpoint {
        Endpoint::Issues => {
            url.append("/issues");
        },
        Endpoint::PullRequests => {
            url.append("/pulls");
        },
        Endpoint::PullRequestDiff(n) => {
            url.append("/pulls/");
            url.append(render_decimal(n).as_str());
            url.append("/files");
            assert(url@ =~= base + ("/pulls/"@ + decimal(n as nat) + "/files"@));
        },
        Endpoint::PullRequestComments(n) => {
            url.append("/pulls/");
            url.append(render_decimal(n).as_str());
            url.append("/comments");
            assert(url@ =~= base + ("/pulls/"@ + decimal(n as nat) + "/comments"@));
        },
    }
    url
}

/// One request to the GitHub API.
#[derive(Clone, Debug, PartialEq, Eq)]
pub struct GitHubRequest {
    pub url: String,
    /// The value of the `Authorization` header, or `None` for an anonymous
    /// request.
    pub authorization: Option<String>,
}

/// The mathematical model of a [`GitHubRequest`].
pub struct RequestView {
    pub url: Seq<char>,
    pub authorization: Option<Seq<char>>,
}

impl View for GitHubRequest {
    type V = RequestView;

    open spec fn view(&self) -> RequestView {
        RequestView {
            url: self.url@,
            authorization: match self.authorization {
                Some(a) => Some(a@),
                None => None,
            },
        }
    }
}

/// The request for `endpoint` of the repository `slug`: with a token it is
/// authorized as its bearer, without one it is anonymous.
pub open spec fn request_for(slug: SlugView, endpoint: Endpoint, token: Option<Seq<char>>)
    -> RequestView {
    RequestView {
        url: api_url(slug, endpoint),
        authorization: match token {
            Some(t) => Some("Bearer "@ + t),
            None => None,
        },
    }
}

/// Plans the one request that `endpoint` takes: resolves the configured
/// remotes to a GitHub repository and returns the request to send. Fails with
/// `NoRemoteConfigured` or `NotGitHub` as `resolve_repo` does, in which case
/// there is nothing to send.
pub fn plan_request(remotes: &Vec<String>, endpoint: Endpoint, token: Option<&String>) -> (r: Result<
    GitHubRequest,
    CoreError,
>)
    ensures
        match repo_of(views(remotes@)) {
            Ok(slug) => r is Ok && r->Ok_0@ == request_for(
                slug,
                endpoint,
                match token {
                    Some(t) => Some(t@),
                    None => None,
                },
            ),
            Err(e) => r is Err && r->Err_0 == e,
        },
{
    match resolve_repo(remotes) {
        Ok(slug) => {
            let authorization = match token {
                Some(t) => {
                    let mut a = String::from_str("Bearer ");
                    a.append(t.as_str());
                    Some(a)
                },
                None => None,
            };
            Ok(GitHubRequest { url: request_url(&slug, endpoint), authorization })
        },
        Err(e) => Err(e),
    }
}

/// Judges the HTTP status of an answer of the GitHub API: a status from 200
/// to 299 is a success, any other a `GitHubApiError` that carries the status.
pub fn check_status(status: u16) -> (r: Result<(), CoreError>)
    ensures
        200 <= status <= 299 ==> r is Ok,
        !(200 <= status <= 299) ==> r == Err::<(), CoreError>(CoreError::GitHubApiError { status }),
{
    if 200 <= status && status <= 299 {
        Ok(())
    } else {
        Err(CoreError::GitHubApiError { status })
    }
}

} // verus!
