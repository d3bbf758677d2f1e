use devcap::model::{BranchLog, CommitRecord, ProjectLog, RepositoryHandle};
use devcap::period::{Now, TimeRange};
use devcap::scan::{assemble, extract_snapshot, scan, RepositorySnapshot};

const NOW: Now = Now { unix: 1710498600, utc_offset: 0 }; // Friday 2024-03-15T10:30:00Z
const DAY: i64 = 86400;

fn commit(hash: &str, author: &str, time: i64) -> CommitRecord {
    CommitRecord {
        hash: hash.to_string(),
        author: author.to_string(),
        message: format!("change {}", hash),
        time,
    }
}

fn healthy(name: &str, commits: Vec<CommitRecord>) -> RepositorySnapshot {
    RepositorySnapshot {
        handle: RepositoryHandle { path: format!("/work/{}", name), name: name.to_string() },
        branches: Some(vec![BranchLog { name: "main".to_string(), commits }]),
    }
}

fn corrupted(name: &str) -> RepositorySnapshot {
    RepositorySnapshot {
        handle: RepositoryHandle { path: format!("/work/{}", name), name: name.to_string() },
        branches: None,
    }
}

fn names(projects: &[ProjectLog]) -> Vec<&str> {
    projects.iter().map(|p| p.name.as_str()).collect()
}

fn work() -> Vec<RepositorySnapshot> {
    vec![
        healthy("proj-b", vec![commit("b1", "Alice", NOW.unix - 365 * DAY)]),
        healthy("proj-a", vec![commit("a1", "Alice", NOW.unix - 2 * DAY)]),
    ]
}

#[test]
fn a_week_holds_the_project_of_two_days_ago_only() {
    let report = scan("week", &NOW, None, None, &work());
    assert_eq!(names(&report), vec!["proj-a"]);
    assert_eq!(report[0].path, "/work/proj-a");
    assert_eq!(report[0].branches.len(), 1);
    assert_eq!(report[0].branches[0].commits, vec![commit("a1", "Alice", NOW.unix - 2 * DAY)]);
}

#[test]
fn the_whole_history_holds_both_projects_by_recency() {
    let report = scan("all", &NOW, None, None, &work());
    assert_eq!(names(&report), vec!["proj-a", "proj-b"]);
}

#[test]
fn a_year_does_not_reach_back_a_full_year_in_march() {
    let report = scan("year", &NOW, None, None, &work());
    assert_eq!(names(&report), vec!["proj-a"]);
    let report = scan("today", &NOW, None, None, &work());
    assert_eq!(names(&report), Vec::<&str>::new());
}

#[test]
fn an_unknown_period_gives_the_empty_report() {
    assert_eq!(scan("fortnight", &NOW, None, None, &work()), vec![]);
    assert_eq!(scan("", &NOW, Some("Alice"), None, &work()), vec![]);
}

#[test]
fn no_repositories_give_the_empty_report() {
    assert_eq!(scan("all", &NOW, None, None, &vec![]), vec![]);
}

#[test]
fn a_corrupted_repository_does_not_fail_the_scan() {
    let snapshots = vec![
        healthy("one", vec![commit("1", "Alice", 100)]),
        corrupted("broken"),
        healthy("two", vec![commit("2", "Alice", 200)]),
    ];
    let report = scan("all", &NOW, None, None, &snapshots);
    assert_eq!(names(&report), vec!["two", "one"]);
    let without = vec![
        healthy("one", vec![commit("1", "Alice", 100)]),
        healthy("two", vec![commit("2", "Alice", 200)]),
    ];
    assert_eq!(report, scan("all", &NOW, None, None, &without));
}

#[test]
fn three_projects_come_out_newest_first() {
    let snapshots = vec![
        healthy("t2", vec![commit("2", "Alice", 200)]),
        healthy("t1", vec![commit("1", "Alice", 100)]),
        healthy("t3", vec![commit("3", "Alice", 300)]),
    ];
    assert_eq!(names(&scan("all", &NOW, None, None, &snapshots)), vec!["t3", "t2", "t1"]);
}

#[test]
fn the_explicit_author_filters_the_scan() {
    let snapshots = vec![
        healthy("mixed", vec![commit("2", "Bob", 200), commit("1", "Alice", 100)]),
        healthy("bobs", vec![commit("3", "Bob", 300)]),
    ];
    let report = scan("all", &NOW, Some("Alice"), Some("Bob"), &snapshots);
    assert_eq!(names(&report), vec!["mixed"]);
    assert_eq!(report[0].branches[0].commits, vec![commit("1", "Alice", 100)]);
}

#[test]
fn the_configured_author_filters_where_none_is_given() {
    let snapshots = vec![
        healthy("mixed", vec![commit("2", "Bob", 200), commit("1", "Alice", 100)]),
        healthy("alices", vec![commit("3", "Alice", 300)]),
    ];
    let report = scan("all", &NOW, None, Some("Bob"), &snapshots);
    assert_eq!(names(&report), vec!["mixed"]);
    assert_eq!(report[0].branches[0].commits, vec![commit("2", "Bob", 200)]);
    let report = scan("all", &NOW, Some(""), Some("Bob"), &snapshots);
    assert_eq!(names(&report), vec!["mixed"]);
}

#[test]
fn without_any_author_every_commit_counts() {
    let snapshots = vec![
        healthy("mixed", vec![commit("2", "Bob", 200), commit("1", "Alice", 100)]),
        healthy("alices", vec![commit("3", "Alice", 300)]),
    ];
    let report = scan("all", &NOW, None, None, &snapshots);
    assert_eq!(names(&report), vec!["alices", "mixed"]);
    assert_eq!(report[1].branches[0].commits.len(), 2);
}

#[test]
fn equally_recent_projects_keep_the_order_of_discovery() {
    let snapshots = vec![
        healthy("first", vec![commit("1", "Alice", 100)]),
        healthy("second", vec![commit("2", "Alice", 100)]),
        healthy("third", vec![commit("3", "Alice", 100)]),
    ];
    assert_eq!(names(&scan("all", &NOW, None, None, &snapshots)), vec!["first", "second", "third"]);
}

#[test]
fn a_scan_keeps_nothing_between_calls() {
    let first = scan("week", &NOW, None, None, &work());
    let second = scan("week", &NOW, None, None, &work());
    assert_eq!(first, second);
    let fewer = vec![healthy("proj-b", vec![commit("b1", "Alice", NOW.unix - 365 * DAY)])];
    assert_eq!(scan("week", &NOW, None, None, &fewer), vec![]);
}

#[test]
fn a_snapshot_that_could_not_be_opened_gives_nothing() {
    let all = TimeRange { start: None, end: None };
    assert_eq!(extract_snapshot(&corrupted("broken"), &all, None), None);
    let one = extract_snapshot(&healthy("one", vec![commit("1", "Alice", 100)]), &all, None);
    assert_eq!(one.map(|p| p.name), Some("one".to_string()));
}

#[test]
fn assembling_drops_what_is_absent_and_ranks_the_rest() {
    let project = |name: &str, time: i64| ProjectLog {
        name: name.to_string(),
        path: format!("/work/{}", name),
        branches: vec![BranchLog { name: "main".to_string(), commits: vec![commit(name, "Alice", time)] }],
    };
    let outcomes =
        vec![None, Some(project("a", 10)), None, Some(project("b", 30)), Some(project("c", 10)), None];
    assert_eq!(names(&assemble(outcomes)), vec!["b", "a", "c"]);
    assert_eq!(assemble(vec![None, None]), vec![]);
    assert_eq!(assemble(vec![]), vec![]);
}
