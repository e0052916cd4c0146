use std::cell::RefCell;
use std::collections::{HashMap, HashSet};
use std::io;

use unicorn::git::discovery::{
    discover_repositories, has_git_extension, join_path, join_relative, slug_for, DirEntryInfo, DirListing,
};
use unicorn::git::error::GitError;

/// A directory tree held in memory: directory path -> its entries as
/// (name, is a directory, holds `.git`).
struct Tree {
    dirs: HashMap<String, Vec<(String, bool, bool)>>,
    unreadable: HashSet<String>,
    repositories: HashSet<String>,
    reads: RefCell<Vec<String>>,
    opens: RefCell<Vec<String>>,
}

impl Tree {
    fn new() -> Tree {
        Tree {
            dirs: HashMap::new(),
            unreadable: HashSet::new(),
            repositories: HashSet::new(),
            reads: RefCell::new(Vec::new()),
            opens: RefCell::new(Vec::new()),
        }
    }

    fn dir(&mut self, path: &str, entries: &[(&str, bool, bool)]) {
        self.dirs.insert(
            path.to_string(),
            entries.iter().map(|(n, d, g)| (n.to_string(), *d, *g)).collect(),
        );
    }

    fn repo(&mut self, path: &str) {
        self.repositories.insert(path.to_string());
    }

    fn read(&self, dir: &String) -> DirListing {
        self.reads.borrow_mut().push(dir.clone());
        if self.unreadable.contains(dir) {
            return Err(io::Error::new(io::ErrorKind::PermissionDenied, "denied"));
        }
        match self.dirs.get(dir) {
            None => Err(io::Error::new(io::ErrorKind::NotFound, "missing")),
            Some(entries) => Ok(entries
                .iter()
                .map(|(name, is_dir, has_dot_git)| {
                    Ok(DirEntryInfo {
                        file_name: name.clone(),
                        is_dir: *is_dir,
                        has_dot_git: *has_dot_git,
                    })
                })
                .collect()),
        }
    }

    fn open(&self, path: &String) -> bool {
        self.opens.borrow_mut().push(path.clone());
        self.repositories.contains(path)
    }
}

fn slugs(found: &[unicorn::git::discovery::DiscoveredRepository]) -> Vec<(String, bool)> {
    found.iter().map(|r| (r.slug.clone(), r.is_bare)).collect()
}

#[test]
fn discovers_owner_name_layout_sorted_by_slug() {
    let mut tree = Tree::new();
    tree.dir("/srv", &[("zed", true, false), ("alice", true, false), ("README", false, false)]);
    tree.dir("/srv/zed", &[("tool.git", true, false)]);
    tree.dir("/srv/alice", &[("web", true, true), ("api.git", true, false)]);
    tree.repo("/srv/zed/tool.git");
    tree.repo("/srv/alice/web");
    tree.repo("/srv/alice/api.git");
    let found = discover_repositories("/srv", 3, true, |d: &String| tree.read(d), |p: &String| tree.open(p)).unwrap();
    assert_eq!(
        slugs(&found),
        vec![("alice/api".to_string(), true), ("alice/web".to_string(), false), ("zed/tool".to_string(), true)]
    );
    assert_eq!(found[0].path, "/srv/alice/api.git");
    assert_eq!(found[1].path, "/srv/alice/web");
}

#[test]
fn missing_root_finds_nothing() {
    let tree = Tree::new();
    let found = discover_repositories("/nowhere", 3, false, |d: &String| tree.read(d), |p: &String| tree.open(p)).unwrap();
    assert!(found.is_empty());
    assert!(tree.reads.borrow().is_empty());
}

#[test]
fn depth_limits_descent() {
    let mut tree = Tree::new();
    tree.dir("/r", &[("a", true, false)]);
    tree.dir("/r/a", &[("b", true, false)]);
    tree.dir("/r/a/b", &[("deep.git", true, false)]);
    tree.repo("/r/a/b/deep.git");
    // deep.git is three levels below the root.
    let shallow = discover_repositories("/r", 2, true, |d: &String| tree.read(d), |p: &String| tree.open(p)).unwrap();
    assert!(shallow.is_empty());
    assert_eq!(*tree.reads.borrow(), vec!["/r".to_string(), "/r/a".to_string()]);
    let deep = discover_repositories("/r", 3, true, |d: &String| tree.read(d), |p: &String| tree.open(p)).unwrap();
    assert_eq!(slugs(&deep), vec![("a/b/deep".to_string(), true)]);
    assert_eq!(deep[0].path, "/r/a/b/deep.git");
}

#[test]
fn owner_name_layout_is_two_levels_deep() {
    let mut tree = Tree::new();
    tree.dir("/srv", &[("alice", true, false)]);
    tree.dir("/srv/alice", &[("web.git", true, false)]);
    tree.repo("/srv/alice/web.git");
    let two = discover_repositories("/srv", 2, true, |d: &String| tree.read(d), |p: &String| tree.open(p)).unwrap();
    assert_eq!(slugs(&two), vec![("alice/web".to_string(), true)]);
    let one = discover_repositories("/srv", 1, true, |d: &String| tree.read(d), |p: &String| tree.open(p)).unwrap();
    assert!(one.is_empty());
}

#[test]
fn zero_depth_reads_nothing() {
    let mut tree = Tree::new();
    tree.dir("/r", &[("x.git", true, false)]);
    tree.repo("/r/x.git");
    let found = discover_repositories("/r", 0, true, |d: &String| tree.read(d), |p: &String| tree.open(p)).unwrap();
    assert!(found.is_empty());
    assert!(tree.reads.borrow().is_empty());
}

#[test]
fn paths_are_built_from_the_root_and_entry_names() {
    let mut tree = Tree::new();
    tree.dir("/srv/", &[("alice", true, false)]);
    tree.dir("/srv/alice", &[("web", true, true)]);
    tree.repo("/srv/alice/web");
    let found = discover_repositories("/srv/", 2, true, |d: &String| tree.read(d), |p: &String| tree.open(p)).unwrap();
    assert_eq!(found.len(), 1);
    assert_eq!(found[0].path, "/srv/alice/web");
    assert_eq!(found[0].slug, "alice/web");
    assert!(!found[0].is_bare);
}

#[test]
fn candidate_that_does_not_open_is_descended_into() {
    let mut tree = Tree::new();
    tree.dir("/r", &[("group.git", true, false)]);
    tree.dir("/r/group.git", &[("inner", true, true)]);
    tree.repo("/r/group.git/inner");
    let found = discover_repositories("/r", 3, true, |d: &String| tree.read(d), |p: &String| tree.open(p)).unwrap();
    assert_eq!(slugs(&found), vec![("group.git/inner".to_string(), false)]);
    assert_eq!(*tree.opens.borrow(), vec!["/r/group.git".to_string(), "/r/group.git/inner".to_string()]);
}

#[test]
fn repositories_are_not_descended_into_and_files_are_skipped() {
    let mut tree = Tree::new();
    tree.dir("/r", &[("x.git", true, false), ("notes.git", false, false), ("plain", true, false)]);
    tree.dir("/r/x.git", &[("nested.git", true, false)]);
    tree.dir("/r/plain", &[]);
    tree.repo("/r/x.git");
    tree.repo("/r/x.git/nested.git");
    let found = discover_repositories("/r", 3, true, |d: &String| tree.read(d), |p: &String| tree.open(p)).unwrap();
    assert_eq!(slugs(&found), vec![("x".to_string(), true)]);
    assert_eq!(*tree.opens.borrow(), vec!["/r/x.git".to_string()]);
}

#[test]
fn unreadable_directory_is_a_scan_error() {
    let mut tree = Tree::new();
    tree.dir("/r", &[("a", true, false), ("b.git", true, false)]);
    tree.unreadable.insert("/r/a".to_string());
    tree.repo("/r/b.git");
    let err = discover_repositories("/r", 3, true, |d: &String| tree.read(d), |p: &String| tree.open(p)).unwrap_err();
    match err {
        GitError::Scan { path, source } => {
            assert_eq!(path, "/r/a");
            assert_eq!(source.kind(), io::ErrorKind::PermissionDenied);
        }
        other => panic!("unexpected error {other:?}"),
    }
    // The scan stopped at the failure: the later entry was never opened.
    assert!(tree.opens.borrow().is_empty());
}

#[test]
fn unreadable_entry_is_a_scan_error() {
    let err = discover_repositories(
        "/r",
        3,
        true,
        |_d: &String| -> DirListing { Ok(vec![Err(io::Error::new(io::ErrorKind::Other, "bad entry"))]) },
        |_p: &String| false,
    )
    .unwrap_err();
    match err {
        GitError::Scan { path, .. } => assert_eq!(path, "/r"),
        other => panic!("unexpected error {other:?}"),
    }
}

#[test]
fn equal_slugs_keep_scan_order() {
    let mut tree = Tree::new();
    tree.dir("/r", &[("p", true, true), ("p.git", true, false)]);
    tree.repo("/r/p");
    tree.repo("/r/p.git");
    let found = discover_repositories("/r", 1, true, |d: &String| tree.read(d), |p: &String| tree.open(p)).unwrap();
    assert_eq!(found.len(), 2);
    assert_eq!(found[0].path, "/r/p");
    assert_eq!(found[1].path, "/r/p.git");
}

#[test]
fn git_extension_follows_path_rules() {
    assert!(has_git_extension("repo.git"));
    assert!(has_git_extension("a.b.git"));
    assert!(has_git_extension("..git"));
    assert!(!has_git_extension(".git"));
    assert!(!has_git_extension("git"));
    assert!(!has_git_extension("repo.gitx"));
    for name in ["repo.git", "a.b.git", "..git", ".git", "git", "repo.gitx", "x.GIT"] {
        let by_path = std::path::Path::new(name).extension().is_some_and(|e| e == "git");
        assert_eq!(has_git_extension(name), by_path, "{name}");
    }
}

#[test]
fn slug_strips_one_git_suffix() {
    assert_eq!(slug_for("alice/web.git"), "alice/web");
    assert_eq!(slug_for("alice/web"), "alice/web");
    assert_eq!(slug_for("a.git.git"), "a.git");
    assert_eq!(slug_for(".git"), "");
}

#[test]
fn relative_paths_join_with_slash() {
    assert_eq!(join_relative("", "alice"), "alice");
    assert_eq!(join_relative("alice", "web.git"), "alice/web.git");
}

#[test]
fn paths_join_like_path_join() {
    assert_eq!(join_path("/srv", "alice"), "/srv/alice");
    assert_eq!(join_path("/srv/", "alice"), "/srv/alice");
    assert_eq!(join_path("", "alice"), "alice");
    for (dir, name) in [("/srv", "alice"), ("/srv/", "alice"), ("", "alice"), ("a/b", "c.git")] {
        let by_path = std::path::Path::new(dir).join(name);
        assert_eq!(join_path(dir, name), by_path.to_string_lossy(), "{dir} {name}");
    }
}
