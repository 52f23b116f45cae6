use gitcore::error::CoreError;
use gitcore::resolver::{
    ancestors, join, nearest_enclosing, parent, resolve_root, Listing, Pending, Probe, RootWalk,
    DEFAULT_ROOT_DEPTH,
};

fn s(text: &str) -> String {
    text.to_string()
}

fn names(list: &[&str]) -> Vec<String> {
    list.iter().map(|n| s(n)).collect()
}

#[test]
fn parents_of_paths() {
    assert_eq!(parent(&s("/home/ann/project")), Some(s("/home/ann")));
    assert_eq!(parent(&s("/home")), Some(s("/")));
    assert_eq!(parent(&s("/")), None);
    assert_eq!(parent(&s("")), None);
    assert_eq!(parent(&s("project")), None);
    assert_eq!(parent(&s("a/b")), Some(s("a")));
    assert_eq!(parent(&s("/home/ann/")), Some(s("/home/ann")));
    assert_eq!(parent(&s("/home/ä/ö")), Some(s("/home/ä")));
}

#[test]
fn ancestors_are_listed_nearest_first() {
    assert_eq!(
        ancestors(&s("/home/ann/project")),
        names(&["/home/ann/project", "/home/ann", "/home", "/"])
    );
    assert_eq!(ancestors(&s("/")), names(&["/"]));
    assert_eq!(ancestors(&s("a/b/c")), names(&["a/b/c", "a/b", "a"]));
    assert_eq!(ancestors(&s("")), names(&[""]));
}

#[test]
fn nearest_enclosing_repository_is_the_first_with_a_marker() {
    let chain = ancestors(&s("/home/ann/project/src"));
    let probes = vec![Probe::NoMarker, Probe::Marker, Probe::NoMarker, Probe::Marker, Probe::NoMarker];
    assert_eq!(nearest_enclosing(&chain, &probes), Ok(Some(s("/home/ann/project"))));
    let probes = vec![Probe::Marker, Probe::Unreadable];
    assert_eq!(nearest_enclosing(&chain, &probes), Ok(Some(s("/home/ann/project/src"))));
}

#[test]
fn no_enclosing_repository() {
    let chain = ancestors(&s("/home/ann"));
    assert_eq!(nearest_enclosing(&chain, &vec![Probe::NoMarker; 3]), Ok(None));
    assert_eq!(nearest_enclosing(&chain, &Vec::new()), Ok(None));
    assert_eq!(nearest_enclosing(&Vec::new(), &vec![Probe::Marker]), Ok(None));
    assert_eq!(nearest_enclosing(&chain, &vec![Probe::NoMarker]), Ok(None));
}

#[test]
fn unreadable_directory_on_the_way_up_fails_with_io_error() {
    let chain = ancestors(&s("/home/ann/project"));
    let probes = vec![Probe::NoMarker, Probe::Unreadable, Probe::Marker, Probe::NoMarker];
    assert_eq!(nearest_enclosing(&chain, &probes), Err(CoreError::IoError));
}

#[test]
fn workspace_resolves_to_the_enclosing_repository_first() {
    assert_eq!(resolve_root(Some(s("/repo")), &names(&["/repo/sub/nested"])), Ok(s("/repo")));
    assert_eq!(resolve_root(Some(s("/repo")), &Vec::new()), Ok(s("/repo")));
}

#[test]
fn workspace_resolves_to_the_first_contained_repository_otherwise() {
    assert_eq!(resolve_root(None, &names(&["/ws/a", "/ws/b"])), Ok(s("/ws/a")));
}

#[test]
fn workspace_without_any_repository_fails_with_not_found() {
    assert_eq!(resolve_root(None, &Vec::new()), Err(CoreError::NotFound));
}

#[test]
fn joined_paths() {
    assert_eq!(join(&s("/ws"), &s("a")), s("/ws/a"));
    assert_eq!(join(&s("/"), &s("a")), s("/a"));
    assert_eq!(join(&s("/ws/"), &s("a")), s("/ws/a"));
    assert_eq!(join(&s(""), &s("a")), s("/a"));
    assert_eq!(join(&s("ws"), &s("ä")), s("ws/ä"));
}

#[test]
fn default_depth_is_two() {
    assert_eq!(DEFAULT_ROOT_DEPTH, 2);
}

fn listing(has_marker: bool, subdirs: &[&str]) -> Result<Listing, CoreError> {
    Ok(Listing { has_marker, subdirs: names(subdirs) })
}

fn look(dir: &str) -> Result<Listing, CoreError> {
    match dir {
        "/ws" => listing(false, &["a", "b", "locked", ".git-like"]),
        "/ws/a" => listing(true, &[".git", "src", "vendor"]),
        "/ws/a/src" => listing(false, &["deep"]),
        "/ws/a/vendor" => listing(true, &[".git"]),
        "/ws/a/src/deep" => listing(true, &[]),
        "/ws/b" => listing(false, &["c"]),
        "/ws/b/c" => listing(true, &["d"]),
        "/ws/b/c/d" => listing(true, &[]),
        "/ws/locked" => Err(CoreError::IoError),
        "/ws/.git-like" => listing(false, &[]),
        other => panic!("unexpected directory {}", other),
    }
}

fn walk(base: &str, depth: Option<usize>) -> (Vec<String>, Vec<String>) {
    let mut w = RootWalk::start(&s(base), depth);
    let mut visited = Vec::new();
    while let Some(at) = w.next_directory() {
        visited.push(at.dir.clone());
        w.visit(&at, look(&at.dir));
    }
    assert!(w.is_done());
    (visited, w.into_roots())
}

#[test]
fn walk_finds_the_repositories_within_the_default_depth() {
    let (visited, roots) = walk("/ws", None);
    assert_eq!(
        visited,
        names(&[
            "/ws",
            "/ws/a",
            "/ws/b",
            "/ws/locked",
            "/ws/.git-like",
            "/ws/a/src",
            "/ws/a/vendor",
            "/ws/b/c"
        ])
    );
    assert_eq!(roots, names(&["/ws/a", "/ws/a/vendor", "/ws/b/c"]));
}

#[test]
fn walk_of_depth_zero_looks_at_the_base_only() {
    let (visited, roots) = walk("/ws", Some(0));
    assert_eq!(visited, names(&["/ws"]));
    assert!(roots.is_empty());
    let (visited, roots) = walk("/ws/a", Some(0));
    assert_eq!(visited, names(&["/ws/a"]));
    assert_eq!(roots, names(&["/ws/a"]));
}

#[test]
fn walk_of_depth_one_stops_below_the_base() {
    let (visited, roots) = walk("/ws", Some(1));
    assert_eq!(visited, names(&["/ws", "/ws/a", "/ws/b", "/ws/locked", "/ws/.git-like"]));
    assert_eq!(roots, names(&["/ws/a"]));
}

#[test]
fn walk_of_greater_depth_goes_deeper() {
    let (visited, roots) = walk("/ws", Some(3));
    assert_eq!(visited.len(), 10);
    assert_eq!(roots, names(&["/ws/a", "/ws/a/vendor", "/ws/b/c", "/ws/a/src/deep", "/ws/b/c/d"]));
}

#[test]
fn unreadable_directory_is_skipped() {
    let mut w = RootWalk::start(&s("/ws"), Some(5));
    let at = w.next_directory().unwrap();
    assert_eq!(at, Pending { dir: s("/ws"), depth: 0 });
    w.visit(&at, Err(CoreError::IoError));
    assert!(w.is_done());
    assert_eq!(w.next_directory(), None);
    assert!(w.into_roots().is_empty());
}

#[test]
fn walk_does_not_descend_into_the_marker() {
    let mut w = RootWalk::start(&s("/r"), Some(1));
    let at = w.next_directory().unwrap();
    w.visit(&at, listing(true, &[".git", "x", ".git"]));
    assert_eq!(w.next_directory(), Some(Pending { dir: s("/r/x"), depth: 1 }));
    assert_eq!(w.next_directory(), None);
    assert_eq!(w.into_roots(), names(&["/r"]));
}
