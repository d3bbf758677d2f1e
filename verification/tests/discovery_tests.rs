use devcap::discovery::{enters, has_marker, join, passes_over, DirEntry, Walk};
use devcap::model::RepositoryHandle;

fn dir(name: &str) -> DirEntry {
    DirEntry { name: name.to_string(), is_dir: true, is_symlink: false }
}

fn file(name: &str) -> DirEntry {
    DirEntry { name: name.to_string(), is_dir: false, is_symlink: false }
}

fn link(name: &str) -> DirEntry {
    DirEntry { name: name.to_string(), is_dir: true, is_symlink: true }
}

fn handle(path: &str, name: &str) -> RepositoryHandle {
    RepositoryHandle { path: path.to_string(), name: name.to_string() }
}

/// Walks a tree that `list` describes and records each directory listed.
fn discover(
    root: RepositoryHandle,
    list: fn(&str) -> Option<Vec<DirEntry>>,
) -> (Vec<RepositoryHandle>, Vec<String>) {
    let mut listed = Vec::new();
    let mut walk = Walk::start(root);
    let mut steps = 0;
    while !walk.is_done() {
        let path = walk.next().unwrap().path.clone();
        let listing = list(&path);
        listed.push(path);
        walk.visit(listing.as_ref());
        steps += 1;
        assert!(steps < 1000);
    }
    assert!(walk.next().is_none());
    (walk.into_found(), listed)
}

fn nested(path: &str) -> Option<Vec<DirEntry>> {
    match path {
        "R" => Some(vec![dir("repoA")]),
        "R/repoA" => Some(vec![dir(".git"), dir("vendor"), file("README.md")]),
        "R/repoA/vendor" => Some(vec![dir("repoB")]),
        "R/repoA/vendor/repoB" => Some(vec![dir(".git")]),
        _ => None,
    }
}

#[test]
fn a_repository_inside_a_repository_is_not_reported() {
    let (found, listed) = discover(handle("R", "R"), nested);
    assert_eq!(found, vec![handle("R/repoA", "repoA")]);
    assert_eq!(listed, vec!["R", "R/repoA"]);
}

fn work(path: &str) -> Option<Vec<DirEntry>> {
    match path {
        "/work" => Some(vec![dir("proj-a"), dir("notes"), file("list.txt"), dir("proj-b")]),
        "/work/proj-a" => Some(vec![dir("src"), dir(".git")]),
        "/work/notes" => Some(vec![file("a.md"), dir("2024")]),
        "/work/notes/2024" => Some(vec![]),
        "/work/proj-b" => Some(vec![file(".git")]),
        _ => None,
    }
}

#[test]
fn repositories_are_found_in_the_order_of_the_listings() {
    let (found, listed) = discover(handle("/work", "work"), work);
    assert_eq!(found, vec![handle("/work/proj-a", "proj-a"), handle("/work/proj-b", "proj-b")]);
    assert_eq!(
        listed,
        vec!["/work", "/work/proj-a", "/work/notes", "/work/notes/2024", "/work/proj-b"]
    );
}

fn deep(path: &str) -> Option<Vec<DirEntry>> {
    match path {
        "/d" => Some(vec![dir("a"), dir("b")]),
        "/d/a" => Some(vec![dir("x"), dir("y")]),
        "/d/a/x" => Some(vec![dir(".git")]),
        "/d/a/y" => Some(vec![dir(".git")]),
        "/d/b" => Some(vec![dir(".git")]),
        _ => None,
    }
}

#[test]
fn the_walk_goes_depth_first() {
    let (found, listed) = discover(handle("/d", "d"), deep);
    assert_eq!(found, vec![handle("/d/a/x", "x"), handle("/d/a/y", "y"), handle("/d/b", "b")]);
    assert_eq!(listed, vec!["/d", "/d/a", "/d/a/x", "/d/a/y", "/d/b"]);
}

fn root_repo(path: &str) -> Option<Vec<DirEntry>> {
    match path {
        "/repo" => Some(vec![dir("sub"), dir(".git")]),
        "/repo/sub" => Some(vec![dir(".git")]),
        _ => None,
    }
}

#[test]
fn a_root_that_is_a_repository_is_the_only_result() {
    let (found, listed) = discover(handle("/repo", "repo"), root_repo);
    assert_eq!(found, vec![handle("/repo", "repo")]);
    assert_eq!(listed, vec!["/repo"]);
}

fn guarded(path: &str) -> Option<Vec<DirEntry>> {
    match path {
        "/g" => Some(vec![dir("locked"), dir("open")]),
        "/g/locked" => None,
        "/g/open" => Some(vec![dir(".git")]),
        _ => None,
    }
}

#[test]
fn a_directory_that_cannot_be_listed_is_skipped() {
    let (found, listed) = discover(handle("/g", "g"), guarded);
    assert_eq!(found, vec![handle("/g/open", "open")]);
    assert_eq!(listed, vec!["/g", "/g/locked", "/g/open"]);
}

fn unreadable(_path: &str) -> Option<Vec<DirEntry>> {
    None
}

#[test]
fn an_unreadable_root_gives_no_repositories() {
    let (found, listed) = discover(handle("/nowhere", "nowhere"), unreadable);
    assert_eq!(found, vec![]);
    assert_eq!(listed, vec!["/nowhere"]);
}

fn cluttered(path: &str) -> Option<Vec<DirEntry>> {
    match path {
        "/c" => Some(vec![
            link("elsewhere"),
            dir(".cache"),
            dir("node_modules"),
            dir("target"),
            file("notes"),
            dir("real"),
        ]),
        "/c/real" => Some(vec![dir(".git")]),
        _ => Some(vec![dir(".git")]),
    }
}

#[test]
fn links_hidden_and_build_directories_are_not_entered() {
    let (found, listed) = discover(handle("/c", "c"), cluttered);
    assert_eq!(found, vec![handle("/c/real", "real")]);
    assert_eq!(listed, vec!["/c", "/c/real"]);
}

#[test]
fn the_marker_is_an_entry_named_dot_git() {
    assert!(has_marker(&vec![file("a"), dir(".git")]));
    assert!(has_marker(&vec![file(".git")]));
    assert!(has_marker(&vec![link(".git")]));
    assert!(!has_marker(&vec![]));
    assert!(!has_marker(&vec![dir("git"), dir(".gitignore"), dir(".GIT"), dir(".git ")]));
}

#[test]
fn passed_over_names() {
    assert!(passes_over(".cache"));
    assert!(passes_over("."));
    assert!(passes_over(".."));
    assert!(passes_over("node_modules"));
    assert!(passes_over("target"));
    assert!(!passes_over(""));
    assert!(!passes_over("src"));
    assert!(!passes_over("targets"));
    assert!(!passes_over("Target"));
    assert!(!passes_over("a.b"));
}

#[test]
fn entered_entries_are_plain_directories() {
    assert!(enters(&dir("src")));
    assert!(!enters(&file("src")));
    assert!(!enters(&link("src")));
    assert!(!enters(&dir(".hidden")));
    assert!(!enters(&DirEntry { name: "f".to_string(), is_dir: false, is_symlink: true }));
}

#[test]
fn joining_puts_one_slash_between() {
    assert_eq!(join("/work", "proj"), "/work/proj");
    assert_eq!(join("/work/", "proj"), "/work/proj");
    assert_eq!(join("/", "proj"), "/proj");
    assert_eq!(join("", "proj"), "/proj");
    assert_eq!(join("rel", "päth"), "rel/päth");
    assert_eq!(join("/wörk", ""), "/wörk/");
}

#[test]
fn visiting_after_the_end_changes_nothing() {
    let mut walk = Walk::start(handle("/r", "r"));
    walk.visit(Some(&vec![dir(".git")]));
    assert!(walk.is_done());
    walk.visit(Some(&vec![dir("more")]));
    walk.visit(None);
    assert!(walk.is_done());
    assert_eq!(walk.into_found(), vec![handle("/r", "r")]);
}
