use devcap::extract::{author_allowed, effective_author, extract, is_wanted, select_commits};
use devcap::model::{BranchLog, CommitRecord, ProjectLog, RepositoryHandle};
use devcap::period::TimeRange;

fn commit(hash: &str, author: &str, time: i64) -> CommitRecord {
    CommitRecord {
        hash: hash.to_string(),
        author: author.to_string(),
        message: format!("change {}", hash),
        time,
    }
}

fn branch(name: &str, commits: Vec<CommitRecord>) -> BranchLog {
    BranchLog { name: name.to_string(), commits }
}

fn handle(path: &str, name: &str) -> RepositoryHandle {
    RepositoryHandle { path: path.to_string(), name: name.to_string() }
}

fn window(start: i64, end: i64) -> TimeRange {
    TimeRange { start: Some(start), end: Some(end) }
}

fn everything() -> TimeRange {
    TimeRange { start: None, end: None }
}

#[test]
fn commits_outside_the_range_are_dropped() {
    let commits = vec![
        commit("d", "Alice", 200),
        commit("c", "Alice", 199),
        commit("b", "Alice", 100),
        commit("a", "Alice", 99),
    ];
    let kept = select_commits(&commits, &window(100, 200), None);
    assert_eq!(kept, vec![commit("c", "Alice", 199), commit("b", "Alice", 100)]);
}

#[test]
fn the_order_of_the_walk_is_kept() {
    let commits = vec![
        commit("e", "Alice", 50),
        commit("d", "Bob", 40),
        commit("c", "Alice", 30),
        commit("b", "Bob", 20),
        commit("a", "Alice", 10),
    ];
    let kept = select_commits(&commits, &everything(), Some("Alice"));
    assert_eq!(
        kept,
        vec![commit("e", "Alice", 50), commit("c", "Alice", 30), commit("a", "Alice", 10)]
    );
}

#[test]
fn author_filter_is_exact() {
    assert!(author_allowed(Some("Alice"), "Alice"));
    assert!(!author_allowed(Some("Alice"), "alice"));
    assert!(!author_allowed(Some("Alice"), "Alice "));
    assert!(!author_allowed(Some("Alice"), "Alice Smith"));
    assert!(!author_allowed(Some("Alice"), "Bob"));
    assert!(!author_allowed(Some("Alice"), ""));
}

#[test]
fn no_filter_and_the_empty_filter_let_everyone_pass() {
    assert!(author_allowed(None, "Alice"));
    assert!(author_allowed(None, ""));
    assert!(author_allowed(Some(""), "Alice"));
    assert!(author_allowed(Some(""), "Bob"));
}

#[test]
fn a_commit_is_wanted_if_range_and_author_agree() {
    let c = commit("a", "Alice", 150);
    assert!(is_wanted(&c, &window(100, 200), Some("Alice")));
    assert!(is_wanted(&c, &window(150, 151), None));
    assert!(!is_wanted(&c, &window(100, 150), Some("Alice")));
    assert!(!is_wanted(&c, &window(100, 200), Some("Bob")));
    assert!(!is_wanted(&c, &window(151, 200), None));
}

#[test]
fn only_the_named_author_is_reported_across_all_branches() {
    let branches = vec![
        branch(
            "main",
            vec![commit("4", "Bob", 40), commit("3", "Alice", 30), commit("1", "Alice", 10)],
        ),
        branch("feature", vec![commit("5", "Alice", 50), commit("2", "Bob", 20)]),
        branch("bobs", vec![commit("6", "Bob", 60)]),
    ];
    let log = extract(&handle("/work/app", "app"), &branches, &everything(), Some("Alice"));
    assert_eq!(
        log,
        Some(ProjectLog {
            name: "app".to_string(),
            path: "/work/app".to_string(),
            branches: vec![
                branch("main", vec![commit("3", "Alice", 30), commit("1", "Alice", 10)]),
                branch("feature", vec![commit("5", "Alice", 50)]),
            ],
        })
    );
}

#[test]
fn a_branch_without_a_matching_commit_is_left_out() {
    let branches = vec![
        branch("old", vec![commit("1", "Alice", 10)]),
        branch("main", vec![commit("2", "Alice", 150)]),
        branch("empty", vec![]),
    ];
    let log = extract(&handle("/r", "r"), &branches, &window(100, 200), None).unwrap();
    assert_eq!(log.branches, vec![branch("main", vec![commit("2", "Alice", 150)])]);
    assert_eq!(log.name, "r");
    assert_eq!(log.path, "/r");
}

#[test]
fn a_repository_without_a_matching_commit_gives_nothing() {
    let branches = vec![
        branch("main", vec![commit("2", "Alice", 20), commit("1", "Alice", 10)]),
        branch("dev", vec![commit("3", "Bob", 30)]),
    ];
    assert_eq!(extract(&handle("/r", "r"), &branches, &window(100, 200), None), None);
    assert_eq!(extract(&handle("/r", "r"), &branches, &everything(), Some("Carol")), None);
    assert_eq!(extract(&handle("/r", "r"), &vec![], &everything(), None), None);
    assert_eq!(extract(&handle("/r", "r"), &vec![branch("main", vec![])], &everything(), None), None);
}

#[test]
fn without_a_filter_every_commit_of_the_range_is_reported() {
    let branches = vec![branch("main", vec![commit("2", "Bob", 20), commit("1", "Alice", 10)])];
    let log = extract(&handle("/r", "r"), &branches, &everything(), None).unwrap();
    assert_eq!(log.branches, branches);
}

#[test]
fn the_explicit_author_comes_first() {
    assert_eq!(effective_author(Some("Alice"), Some("Operator")), Some("Alice"));
    assert_eq!(effective_author(Some("Alice"), None), Some("Alice"));
}

#[test]
fn the_configured_author_stands_in_for_a_missing_one() {
    assert_eq!(effective_author(None, Some("Operator")), Some("Operator"));
    assert_eq!(effective_author(Some(""), Some("Operator")), Some("Operator"));
}

#[test]
fn without_any_author_nothing_is_filtered() {
    assert_eq!(effective_author(None, None), None);
    assert_eq!(effective_author(Some(""), None), None);
}
