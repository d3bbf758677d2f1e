//! A whole scan: from what was read of each repository to the report.

use crate::extract::{
    chosen_author, effective_author, extract, extracted, filter_view, lemma_extracted_is_dense,
};
use crate::model::{
    branch_views, project_is_dense, project_views, BranchLog, BranchView, HandleView, ProjectLog,
    ProjectView, RepositoryHandle,
};
use crate::period::{resolve, resolved, Now, TimeRange};
use crate::ranking::{
    is_ranking_of, latest_at, lemma_ranking_is_unique, place, tied_at, times_of,
};
use vstd::prelude::*;

verus! {

/// What was read of one repository: its branches with their commits, or
/// `None` where the repository could not be opened.
#[derive(Debug, PartialEq, Eq)]
pub struct RepositorySnapshot {
    pub handle: RepositoryHandle,
    pub branches: Option<Vec<BranchLog>>,
}

/// A snapshot as mathematical values.
pub struct SnapshotView {
    pub handle: HandleView,
    pub branches: Option<Seq<BranchView>>,
}

impl View for RepositorySnapshot {
    type V = SnapshotView;

    open spec fn view(&self) -> SnapshotView {
        SnapshotView {
            handle: self.handle@,
            branches: match self.branches {
                Some(branches) => Some(branch_views(branches@)),
                None => None,
            },
        }
    }
}

/// The views of a sequence of snapshots, in the same order.
pub open spec fn snapshot_views(snapshots: Seq<RepositorySnapshot>) -> Seq<SnapshotView> {
    snapshots.map_values(|s: RepositorySnapshot| s@)
}

/// The view of what extraction gave for one repository.
pub open spec fn outcome_view(outcome: Option<ProjectLog>) -> Option<ProjectView> {
    match outcome {
        Some(project) => Some(project@),
        None => None,
    }
}

/// The views of what extraction gave, repository by repository.
pub open spec fn outcome_views(outcomes: Seq<Option<ProjectLog>>) -> Seq<Option<ProjectView>> {
    outcomes.map_values(|o: Option<ProjectLog>| outcome_view(o))
}

/// What a snapshot gives to a report: nothing for a repository that could
/// not be opened, else what extraction gives for its branches.
pub open spec fn contribution(
    snapshot: SnapshotView,
    range: TimeRange,
    filter: Option<Seq<char>>,
) -> Option<ProjectView> {
    match snapshot.branches {
        Some(branches) => extracted(snapshot.handle, branches, range, filter),
        None => None,
    }
}

/// What each snapshot gives to a report, in the order of the snapshots.
pub open spec fn contributions(
    snapshots: Seq<SnapshotView>,
    range: TimeRange,
    filter: Option<Seq<char>>,
) -> Seq<Option<ProjectView>> {
    Seq::new(snapshots.len(), |i: int| contribution(snapshots[i], range, filter))
}

/// The projects among the outcomes, in the order of the outcomes.
pub open spec fn present(outcomes: Seq<Option<ProjectView>>) -> Seq<ProjectView>
    decreases outcomes.len(),
{
    if outcomes.len() == 0 {
        Seq::empty()
    } else {
        match outcomes.first() {
            Some(project) => seq![project] + present(outcomes.drop_first()),
            None => present(outcomes.drop_first()),
        }
    }
}

/// Whether `report` is the report of a scan: empty where the period token is
/// unknown; else what the snapshots give under the token's range and the
/// chosen author, put in the order of a report.
pub open spec fn is_report_of(
    token: Seq<char>,
    now: Now,
    explicit: Option<Seq<char>>,
    configured: Option<Seq<char>>,
    snapshots: Seq<SnapshotView>,
    report: Seq<ProjectView>,
) -> bool {
    match resolved(token, now) {
        Ok(range) => is_ranking_of(
            present(contributions(snapshots, range, chosen_author(explicit, configured))),
            report,
        ),
        Err(_) => report.len() == 0,
    }
}

/// What one snapshot gives to a report.
pub fn extract_snapshot(snapshot: &RepositorySnapshot, range: &TimeRange, filter: Option<&str>) -> (log:
    Option<ProjectLog>)
    ensures
        outcome_view(log) == contribution(snapshot@, *range, filter_view(filter)),
        log is Some ==> project_is_dense(log->Some_0@),
{
    match &snapshot.branches {
        Some(branches) => extract(&snapshot.handle, branches, range, filter),
        None => None,
    }
}

/// Gathers what the repositories gave into a report: the projects that are
/// there, the most recently active first, and those of one latest time in
/// the order of their repositories.
pub fn assemble(outcomes: Vec<Option<ProjectLog>>) -> (report: Vec<ProjectLog>)
    ensures
        is_ranking_of(present(outcome_views(outcomes@)), project_views(report@)),
{
    let ghost all = outcome_views(outcomes@);
    let mut waiting = outcomes;
    let mut report: Vec<ProjectLog> = Vec::new();
    let mut times: Vec<Option<i64>> = Vec::new();
    proof {
        assert(all.skip(all.len() as int) =~= Seq::<Option<ProjectView>>::empty());
        assert(project_views(report@) =~= Seq::<ProjectView>::empty());
    }
    while waiting.len() > 0
        invariant
            waiting@.len() <= all.len(),
            outcome_views(waiting@) == all.take(waiting@.len() as int),
            times_of(report@, times@),
            is_ranking_of(present(all.skip(waiting@.len() as int)), project_views(report@)),
        decreases waiting.len(),
    {
        let ghost n = waiting@.len() as int;
        let ghost before = project_views(report@);
        let ghost longer = outcome_views(waiting@);
        let outcome = waiting.pop().unwrap();
        proof {
            assert(outcome_view(outcome) == longer[n - 1]);
            assert(outcome_view(outcome) == all[n - 1]);
            assert(outcome_views(waiting@) =~= all.take(n - 1));
            assert(all.skip(n - 1).first() == all[n - 1]);
            assert(all.skip(n - 1).drop_first() =~= all.skip(n));
        }
        match outcome {
            Some(project) => {
                place(&mut report, &mut times, project);
                proof {
                    let after = project_views(report@);
                    let x = project@;
                    let rest = present(all.skip(n));
                    let now = present(all.skip(n - 1));
                    assert(now == seq![x] + rest);
                    assert(now.remove(0) =~= rest);
                    vstd::seq_lib::to_multiset_remove(now, 0);
                    now.to_multiset_ensures();
                    assert(now.contains(now[0]));
                    assert(now.to_multiset() =~= rest.to_multiset().insert(x));
                    assert forall|t: Option<int>| #[trigger]
                        tied_at(after, t) == tied_at(now, t) by {
                        assert(tied_at(before, t) == tied_at(rest, t));
                        Seq::filter_distributes_over_add(seq![x], rest, latest_at(t));
                    }
                }
            },
            None => {},
        }
    }
    proof {
        assert(all.skip(0) =~= all);
    }
    report
}

/// Scans what was read of the repositories below a root. The period token
/// is resolved at the moment `now`; the author is the explicit one, else the
/// configured one, else any. Each snapshot gives its part independently of
/// the others, and one that could not be opened gives nothing. An unknown
/// period token gives the empty report.
pub fn scan(
    token: &str,
    now: &Now,
    explicit: Option<&str>,
    configured: Option<&str>,
    snapshots: &Vec<RepositorySnapshot>,
) -> (report: Vec<ProjectLog>)
    ensures
        is_report_of(
            token@,
            *now,
            filter_view(explicit),
            filter_view(configured),
            snapshot_views(snapshots@),
            project_views(report@),
        ),
        forall|k: int| 0 <= k < report@.len() ==> project_is_dense((#[trigger] report@[k])@),
{
    let range = match resolve(token, now) {
        Ok(range) => range,
        Err(_) => {
            return Vec::new();
        },
    };
    let author = effective_author(explicit, configured);
    let ghost all = snapshot_views(snapshots@);
    let ghost wanted = filter_view(author);
    let mut outcomes: Vec<Option<ProjectLog>> = Vec::new();
    let mut i: usize = 0;
    while i < snapshots.len()
        invariant
            i <= snapshots.len(),
            all == snapshot_views(snapshots@),
            wanted == filter_view(author),
            outcomes@.len() == i,
            forall|k: int|
                0 <= k < i ==> outcome_view(#[trigger] outcomes@[k]) == contribution(
                    all[k],
                    range,
                    wanted,
                ),
        decreases snapshots.len() - i,
    {
        let outcome = extract_snapshot(&snapshots[i], &range, author);
        outcomes.push(outcome);
        i = i + 1;
    }
    proof {
        assert(outcome_views(outcomes@) =~= contributions(all, range, wanted));
    }
    let report = assemble(outcomes);
    proof {
        assert forall|k: int| 0 <= k < report@.len() implies project_is_dense(
            (#[trigger] report@[k])@,
        ) by {
            lemma_report_is_dense(
                token@,
                *now,
                filter_view(explicit),
                filter_view(configured),
                all,
                project_views(report@),
                k,
            );
            assert(project_views(report@)[k] == report@[k]@);
        }
    }
    report
}

/// The projects among the outcomes are the outcomes that are there: each
/// project stands at some place among the outcomes. The result is such a
/// place.
pub proof fn lemma_present_source(outcomes: Seq<Option<ProjectView>>, k: int) -> (i: int)
    requires
        0 <= k < present(outcomes).len(),
    ensures
        0 <= i < outcomes.len(),
        outcomes[i] == Some(present(outcomes)[k]),
    decreases outcomes.len(),
{
    let rest = outcomes.drop_first();
    if outcomes.first() is Some && k == 0 {
        0
    } else if outcomes.first() is Some {
        lemma_present_source(rest, k - 1) + 1
    } else {
        lemma_present_source(rest, k) + 1
    }
}

/// Each outcome that is there stands among the projects. The result is its
/// place among them.
pub proof fn lemma_present_holds(outcomes: Seq<Option<ProjectView>>, i: int) -> (k: int)
    requires
        0 <= i < outcomes.len(),
        outcomes[i] is Some,
    ensures
        0 <= k < present(outcomes).len(),
        outcomes[i] == Some(present(outcomes)[k]),
    decreases outcomes.len(),
{
    let rest = outcomes.drop_first();
    if i == 0 {
        0
    } else if outcomes.first() is Some {
        lemma_present_holds(rest, i - 1) + 1
    } else {
        lemma_present_holds(rest, i - 1)
    }
}

/// An outcome that is not there leaves no trace: without it, the projects
/// are the same.
pub proof fn lemma_absent_changes_nothing(outcomes: Seq<Option<ProjectView>>, i: int)
    requires
        0 <= i < outcomes.len(),
        outcomes[i] is None,
    ensures
        present(outcomes.remove(i)) == present(outcomes),
    decreases outcomes.len(),
{
    let rest = outcomes.drop_first();
    if i == 0 {
        assert(outcomes.remove(0) =~= rest);
    } else {
        lemma_absent_changes_nothing(rest, i - 1);
        assert(outcomes.remove(i).first() == outcomes.first());
        assert(outcomes.remove(i).drop_first() =~= rest.remove(i - 1));
    }
}

/// A repository that could not be opened does not change what the others
/// give: the report is a report of the snapshots without it.
pub proof fn lemma_unopened_repository_is_skipped(
    token: Seq<char>,
    now: Now,
    explicit: Option<Seq<char>>,
    configured: Option<Seq<char>>,
    snapshots: Seq<SnapshotView>,
    report: Seq<ProjectView>,
    i: int,
)
    requires
        0 <= i < snapshots.len(),
        snapshots[i].branches is None,
        is_report_of(token, now, explicit, configured, snapshots, report),
    ensures
        is_report_of(token, now, explicit, configured, snapshots.remove(i), report),
{
    if let Ok(range) = resolved(token, now) {
        let filter = chosen_author(explicit, configured);
        let all = contributions(snapshots, range, filter);
        lemma_absent_changes_nothing(all, i);
        assert(contributions(snapshots.remove(i), range, filter) =~= all.remove(i));
    }
}

/// Every project of a report has a branch, and each of its branches has a
/// commit.
pub proof fn lemma_report_is_dense(
    token: Seq<char>,
    now: Now,
    explicit: Option<Seq<char>>,
    configured: Option<Seq<char>>,
    snapshots: Seq<SnapshotView>,
    report: Seq<ProjectView>,
    k: int,
)
    requires
        is_report_of(token, now, explicit, configured, snapshots, report),
        0 <= k < report.len(),
    ensures
        project_is_dense(report[k]),
{
    let range = resolved(token, now)->Ok_0;
    let filter = chosen_author(explicit, configured);
    let given = contributions(snapshots, range, filter);
    let projects = present(given);
    report.to_multiset_ensures();
    projects.to_multiset_ensures();
    assert(resolved(token, now) is Ok);
    assert(is_ranking_of(projects, report));
    assert(report.contains(report[k]));
    assert(report.to_multiset().count(report[k]) > 0);
    assert(projects.to_multiset().count(report[k]) > 0);
    assert(projects.contains(report[k]));
    let at = choose|at: int| 0 <= at < projects.len() && projects[at] == report[k];
    let i = lemma_present_source(given, at);
    let branches = snapshots[i].branches->Some_0;
    lemma_extracted_is_dense(snapshots[i].handle, branches, range, filter);
}

/// One scan has one report: the token, the moment, the authors and the
/// snapshots determine it.
pub proof fn lemma_report_is_unique(
    token: Seq<char>,
    now: Now,
    explicit: Option<Seq<char>>,
    configured: Option<Seq<char>>,
    snapshots: Seq<SnapshotView>,
    a: Seq<ProjectView>,
    b: Seq<ProjectView>,
)
    requires
        is_report_of(token, now, explicit, configured, snapshots, a),
        is_report_of(token, now, explicit, configured, snapshots, b),
    ensures
        a == b,
{
    match resolved(token, now) {
        Ok(range) => {
            let filter = chosen_author(explicit, configured);
            lemma_ranking_is_unique(present(contributions(snapshots, range, filter)), a, b);
        },
        Err(_) => {
            assert(a =~= b);
        },
    }
}

} // verus!
