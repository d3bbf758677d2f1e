//! The order of a report: projects by the time of their latest commit, the
//! most recently active first, and among equals the one that came first.

use crate::extract::lemma_filter_source;
use crate::model::{
    branch_views, commit_views, newest_first, project_views, BranchView, CommitRecord, CommitView,
    ProjectLog, ProjectView,
};
use vstd::prelude::*;

verus! {

/// The later of two times, where `None` stands for no time at all and so is
/// earlier than any.
pub open spec fn later(a: Option<int>, b: Option<int>) -> Option<int> {
    match (a, b) {
        (Some(x), Some(y)) => Some(
            if x >= y {
                x
            } else {
                y
            },
        ),
        (Some(_), None) => a,
        _ => b,
    }
}

/// Whether time `a` is later than time `b`, with `None` earlier than any.
pub open spec fn newer(a: Option<int>, b: Option<int>) -> bool {
    match (a, b) {
        (Some(x), Some(y)) => x > y,
        (Some(_), None) => true,
        _ => false,
    }
}

/// The latest time among the commits, `None` if there is no commit.
pub open spec fn newest_time(commits: Seq<CommitView>) -> Option<int>
    decreases commits.len(),
{
    if commits.len() == 0 {
        None
    } else {
        later(newest_time(commits.drop_last()), Some(commits.last().time))
    }
}

/// The latest time among the commits of the branches, `None` if there is no
/// commit.
pub open spec fn latest_in(branches: Seq<BranchView>) -> Option<int>
    decreases branches.len(),
{
    if branches.len() == 0 {
        None
    } else {
        later(latest_in(branches.drop_last()), newest_time(branches.last().commits))
    }
}

/// The time of a project's latest commit over all its branches, `None` if it
/// has no commit.
pub open spec fn latest(project: ProjectView) -> Option<int> {
    latest_in(project.branches)
}

/// An optional timestamp as a mathematical value.
pub open spec fn time_view(t: Option<i64>) -> Option<int> {
    match t {
        Some(x) => Some(x as int),
        None => None,
    }
}

/// The later of two times, with `None` earlier than any.
pub fn later_of(a: Option<i64>, b: Option<i64>) -> (t: Option<i64>)
    ensures
        time_view(t) == later(time_view(a), time_view(b)),
{
    match (a, b) {
        (Some(x), Some(y)) => Some(
            if x >= y {
                x
            } else {
                y
            },
        ),
        (Some(_), None) => a,
        _ => b,
    }
}

/// Whether time `a` is later than time `b`, with `None` earlier than any.
pub fn is_newer(a: Option<i64>, b: Option<i64>) -> (yes: bool)
    ensures
        yes == newer(time_view(a), time_view(b)),
{
    match (a, b) {
        (Some(x), Some(y)) => x > y,
        (Some(_), None) => true,
        _ => false,
    }
}

/// The latest time among the commits, `None` if there is no commit.
pub fn newest_commit_time(commits: &Vec<CommitRecord>) -> (t: Option<i64>)
    ensures
        time_view(t) == newest_time(commit_views(commits@)),
{
    let ghost all = commit_views(commits@);
    let mut t: Option<i64> = None;
    let mut i: usize = 0;
    proof {
        assert(all.take(0) =~= Seq::<CommitView>::empty());
    }
    while i < commits.len()
        invariant
            i <= commits.len(),
            all == commit_views(commits@),
            time_view(t) == newest_time(all.take(i as int)),
        decreases commits.len() - i,
    {
        proof {
            assert(all.take(i + 1).drop_last() =~= all.take(i as int));
            assert(all.take(i + 1).last() == commits@[i as int]@);
        }
        t = later_of(t, Some(commits[i].time));
        i = i + 1;
    }
    proof {
        assert(all.take(i as int) =~= all);
    }
    t
}

/// The time of the project's latest commit over all its branches, `None` if
/// it has no commit.
pub fn latest_commit_time(project: &ProjectLog) -> (t: Option<i64>)
    ensures
        time_view(t) == latest(project@),
{
    let ghost all = branch_views(project.branches@);
    let mut t: Option<i64> = None;
    let mut i: usize = 0;
    proof {
        assert(all.take(0) =~= Seq::<BranchView>::empty());
    }
    while i < project.branches.len()
        invariant
            i <= project.branches.len(),
            all == branch_views(project.branches@),
            time_view(t) == latest_in(all.take(i as int)),
        decreases project.branches.len() - i,
    {
        proof {
            assert(all.take(i + 1).drop_last() =~= all.take(i as int));
            assert(all.take(i + 1).last() == project.branches@[i as int]@);
        }
        t = later_of(t, newest_commit_time(&project.branches[i].commits));
        i = i + 1;
    }
    proof {
        assert(all.take(i as int) =~= all);
    }
    t
}

/// The latest time among the commits is the time of one of them, and none of
/// them is later; without a commit there is none.
pub proof fn lemma_newest_time_is_maximum(commits: Seq<CommitView>)
    ensures
        newest_time(commits) is None <==> commits.len() == 0,
        newest_time(commits) is Some ==> exists|j: int|
            0 <= j < commits.len() && #[trigger] commits[j].time == newest_time(commits)->Some_0,
        forall|j: int|
            0 <= j < commits.len() ==> (#[trigger] commits[j]).time <= newest_time(commits)->Some_0,
    decreases commits.len(),
{
    if commits.len() > 0 {
        let shorter = commits.drop_last();
        lemma_newest_time_is_maximum(shorter);
        if newest_time(shorter) is Some && newest_time(shorter)->Some_0 >= commits.last().time {
            let j = choose|j: int|
                0 <= j < shorter.len() && #[trigger] shorter[j].time == newest_time(
                    shorter,
                )->Some_0;
            assert(commits[j].time == newest_time(commits)->Some_0);
        } else {
            assert(commits[commits.len() - 1].time == newest_time(commits)->Some_0);
        }
        assert forall|j: int| 0 <= j < commits.len() implies (#[trigger] commits[j]).time
            <= newest_time(commits)->Some_0 by {
            if j < shorter.len() {
                assert(shorter[j].time <= newest_time(shorter)->Some_0);
            }
        }
    }
}

/// Of commits that come newest first, the first is the latest.
pub proof fn lemma_newest_first_starts_with_latest(commits: Seq<CommitView>)
    requires
        newest_first(commits),
        commits.len() > 0,
    ensures
        newest_time(commits) == Some(commits[0].time),
{
    lemma_newest_time_is_maximum(commits);
    let j = choose|j: int|
        0 <= j < commits.len() && #[trigger] commits[j].time == newest_time(commits)->Some_0;
    assert(commits[0].time <= newest_time(commits)->Some_0);
}

/// A project's latest time is the time of one of its commits, and none of
/// its commits is later; it is `None` exactly if the project has no commit.
pub proof fn lemma_latest_is_maximum(project: ProjectView)
    ensures
        latest(project) is None <==> (forall|i: int|
            0 <= i < project.branches.len() ==> (#[trigger] project.branches[i]).commits.len()
                == 0),
        latest(project) is Some ==> exists|i: int, j: int|
            0 <= i < project.branches.len() && 0 <= j < project.branches[i].commits.len()
                && #[trigger] project.branches[i].commits[j].time == latest(project)->Some_0,
        forall|i: int, j: int|
            0 <= i < project.branches.len() && 0 <= j < project.branches[i].commits.len()
                ==> #[trigger] project.branches[i].commits[j].time <= latest(project)->Some_0,
{
    lemma_latest_in_is_maximum(project.branches);
}

/// The statement of `lemma_latest_is_maximum`, over a sequence of branches.
pub proof fn lemma_latest_in_is_maximum(branches: Seq<BranchView>)
    ensures
        latest_in(branches) is None <==> (forall|i: int|
            0 <= i < branches.len() ==> (#[trigger] branches[i]).commits.len() == 0),
        latest_in(branches) is Some ==> exists|i: int, j: int|
            0 <= i < branches.len() && 0 <= j < branches[i].commits.len()
                && #[trigger] branches[i].commits[j].time == latest_in(branches)->Some_0,
        forall|i: int, j: int|
            0 <= i < branches.len() && 0 <= j < branches[i].commits.len()
                ==> #[trigger] branches[i].commits[j].time <= latest_in(branches)->Some_0,
    decreases branches.len(),
{
    if branches.len() > 0 {
        let shorter = branches.drop_last();
        let last = branches.last();
        let n = branches.len() - 1;
        lemma_latest_in_is_maximum(shorter);
        lemma_newest_time_is_maximum(last.commits);
        let m = latest_in(branches);
        assert forall|i: int| 0 <= i < shorter.len() implies shorter[i] == branches[i] by {}
        if m is None {
            assert forall|i: int| 0 <= i < branches.len() implies (#[trigger] branches[i]).commits.len()
                == 0 by {
                if i < n {
                    assert(shorter[i].commits.len() == 0);
                }
            }
        } else {
            if newest_time(last.commits) == m {
                let j = choose|j: int|
                    0 <= j < last.commits.len() && #[trigger] last.commits[j].time == newest_time(
                        last.commits,
                    )->Some_0;
                assert(branches[n].commits[j].time == m->Some_0);
            } else {
                let (i, j) = choose|i: int, j: int|
                    0 <= i < shorter.len() && 0 <= j < shorter[i].commits.len()
                        && #[trigger] shorter[i].commits[j].time == latest_in(shorter)->Some_0;
                assert(branches[i].commits[j].time == m->Some_0);
            }
            assert(!(forall|i: int|
                0 <= i < branches.len() ==> (#[trigger] branches[i]).commits.len() == 0)) by {
                if newest_time(last.commits) is Some {
                    assert(branches[n].commits.len() > 0);
                } else {
                    let i = choose|i: int|
                        0 <= i < shorter.len() && (#[trigger] shorter[i]).commits.len() != 0;
                    assert(branches[i].commits.len() != 0);
                }
            }
        }
        assert forall|i: int, j: int|
            0 <= i < branches.len() && 0 <= j < branches[i].commits.len() implies #[trigger] branches[i].commits[j].time
            <= m->Some_0 by {
            if i < n {
                assert(shorter[i].commits[j].time <= latest_in(shorter)->Some_0);
            } else {
                assert(last.commits[j].time <= newest_time(last.commits)->Some_0);
            }
        }
    }
}

/// Whether the projects stand by recency: none stands before one whose
/// latest commit is later.
pub open spec fn by_recency(projects: Seq<ProjectView>) -> bool {
    forall|i: int, j: int|
        0 <= i < j < projects.len() ==> !newer(latest(projects[j]), latest(projects[i]))
}

/// The test whether a project's latest commit was made at time `t`, as a
/// function of the project.
pub open spec fn latest_at(t: Option<int>) -> spec_fn(ProjectView) -> bool {
    |project: ProjectView| latest(project) == t
}

/// The projects whose latest commit was made at time `t`, in the order they
/// have in `projects`.
pub open spec fn tied_at(projects: Seq<ProjectView>, t: Option<int>) -> Seq<ProjectView> {
    projects.filter(latest_at(t))
}

/// Whether `ranked` is `projects` put in the order of a report: the same
/// projects, as often as they came; the most recently active first; and
/// projects of one latest time in the order in which they came.
pub open spec fn is_ranking_of(projects: Seq<ProjectView>, ranked: Seq<ProjectView>) -> bool {
    &&& by_recency(ranked)
    &&& ranked.to_multiset() == projects.to_multiset()
    &&& forall|t: Option<int>| #[trigger] tied_at(ranked, t) == tied_at(projects, t)
}

/// Whether `times` holds, place by place, the latest times of `projects`.
pub open spec fn times_of(projects: Seq<ProjectLog>, times: Seq<Option<i64>>) -> bool {
    &&& times.len() == projects.len()
    &&& forall|i: int| 0 <= i < projects.len() ==> time_view(#[trigger] times[i]) == latest(projects[i]@)
}

/// A sequence in which no element passes the test has an empty filter.
pub proof fn lemma_filter_of_none<A>(s: Seq<A>, pred: spec_fn(A) -> bool)
    requires
        forall|i: int| 0 <= i < s.len() ==> !pred(#[trigger] s[i]),
    ensures
        s.filter(pred).len() == 0,
{
    if s.filter(pred).len() > 0 {
        let a = lemma_filter_source(s, pred, 0);
    }
}

/// Putting a project in before every project that is not more recent leaves
/// each group of tied projects as it would be had the project come first.
pub proof fn lemma_insert_keeps_ties(
    ranked: Seq<ProjectView>,
    at: int,
    project: ProjectView,
    t: Option<int>,
)
    requires
        0 <= at <= ranked.len(),
        forall|i: int| 0 <= i < at ==> newer(latest(#[trigger] ranked[i]), latest(project)),
    ensures
        tied_at(ranked.insert(at, project), t) == tied_at(seq![project], t) + tied_at(ranked, t),
        tied_at(seq![project] + ranked, t) == tied_at(seq![project], t) + tied_at(ranked, t),
{
    let test = latest_at(t);
    let head = ranked.take(at);
    let rest = ranked.skip(at);
    let one = seq![project];
    assert(ranked.insert(at, project) =~= (head + one) + rest);
    assert(ranked =~= head + rest);
    Seq::filter_distributes_over_add(head + one, rest, test);
    Seq::filter_distributes_over_add(head, one, test);
    Seq::filter_distributes_over_add(head, rest, test);
    Seq::filter_distributes_over_add(one, ranked, test);
    if latest(project) == t {
        assert forall|i: int| 0 <= i < head.len() implies !test(#[trigger] head[i]) by {
            assert(head[i] == ranked[i]);
        }
        lemma_filter_of_none(head, test);
        assert(head.filter(test) =~= Seq::<ProjectView>::empty());
        assert(ranked.insert(at, project).filter(test) =~= one.filter(test) + rest.filter(test));
        assert(ranked.filter(test) =~= rest.filter(test));
    } else {
        assert forall|i: int| 0 <= i < one.len() implies !test(#[trigger] one[i]) by {}
        lemma_filter_of_none(one, test);
        assert(one.filter(test) =~= Seq::<ProjectView>::empty());
        assert(ranked.insert(at, project).filter(test) =~= head.filter(test) + rest.filter(test));
        assert(one.filter(test) + ranked.filter(test) =~= ranked.filter(test));
    }
}

/// Two sequences of one length that both stand by recency, and in which the
/// projects tied at each time stand in one order, are the same sequence.
pub proof fn lemma_same_ties_same_order(a: Seq<ProjectView>, b: Seq<ProjectView>)
    requires
        by_recency(a),
        by_recency(b),
        a.len() == b.len(),
        forall|t: Option<int>| #[trigger] tied_at(a, t) == tied_at(b, t),
    ensures
        a == b,
    decreases a.len(),
{
    if a.len() > 0 {
        reveal(Seq::filter);
        let ta = latest(a.last());
        let tb = latest(b.last());
        let shorter_a = a.drop_last();
        let shorter_b = b.drop_last();
        assert(tied_at(a, ta) == tied_at(shorter_a, ta).push(a.last()));
        assert(tied_at(b, tb) == tied_at(shorter_b, tb).push(b.last()));
        assert(tied_at(a, tb) == tied_at(b, tb));
        let i = lemma_filter_source(b, latest_at(ta), tied_at(b, ta).len() - 1);
        let j = lemma_filter_source(a, latest_at(tb), tied_at(a, tb).len() - 1);
        assert(ta == tb) by {
            if i < b.len() - 1 {
                assert(!newer(latest(b[b.len() - 1]), latest(b[i])));
            }
            if j < a.len() - 1 {
                assert(!newer(latest(a[a.len() - 1]), latest(a[j])));
            }
        }
        assert(a.last() == tied_at(a, ta).last());
        assert(b.last() == tied_at(b, ta).last());
        assert forall|t: Option<int>| #[trigger]
            tied_at(shorter_a, t) == tied_at(shorter_b, t) by {
            assert(tied_at(a, t) == tied_at(b, t));
            if t == ta {
                assert(tied_at(shorter_a, t) =~= tied_at(a, t).drop_last());
                assert(tied_at(shorter_b, t) =~= tied_at(b, t).drop_last());
            }
        }
        assert forall|x: int, y: int| 0 <= x < y < shorter_a.len() implies !newer(
            latest(shorter_a[y]),
            latest(shorter_a[x]),
        ) by {
            assert(!newer(latest(a[y]), latest(a[x])));
        }
        assert forall|x: int, y: int| 0 <= x < y < shorter_b.len() implies !newer(
            latest(shorter_b[y]),
            latest(shorter_b[x]),
        ) by {
            assert(!newer(latest(b[y]), latest(b[x])));
        }
        lemma_same_ties_same_order(shorter_a, shorter_b);
        assert(a =~= shorter_a.push(a.last()));
        assert(b =~= shorter_b.push(b.last()));
    } else {
        assert(a =~= b);
    }
}

/// Projects have one ranking only: the order of a report is determined by
/// the projects and the order in which they came.
pub proof fn lemma_ranking_is_unique(
    projects: Seq<ProjectView>,
    a: Seq<ProjectView>,
    b: Seq<ProjectView>,
)
    requires
        is_ranking_of(projects, a),
        is_ranking_of(projects, b),
    ensures
        a == b,
{
    a.to_multiset_ensures();
    b.to_multiset_ensures();
    assert forall|t: Option<int>| #[trigger] tied_at(a, t) == tied_at(b, t) by {
        assert(tied_at(a, t) == tied_at(projects, t));
        assert(tied_at(b, t) == tied_at(projects, t));
    }
    lemma_same_ties_same_order(a, b);
}

/// A ranking is as long as what it ranks, and no project is more recent than
/// the one that the ranking starts with.
pub proof fn lemma_ranking_starts_with_most_recent(
    projects: Seq<ProjectView>,
    ranked: Seq<ProjectView>,
    i: int,
)
    requires
        is_ranking_of(projects, ranked),
        0 <= i < projects.len(),
    ensures
        ranked.len() == projects.len(),
        !newer(latest(projects[i]), latest(ranked[0])),
{
    ranked.to_multiset_ensures();
    projects.to_multiset_ensures();
    assert(projects.contains(projects[i]));
    assert(projects.to_multiset().count(projects[i]) > 0);
    assert(ranked.to_multiset().count(projects[i]) > 0);
    assert(ranked.contains(projects[i]));
    let at = choose|at: int| 0 <= at < ranked.len() && ranked[at] == projects[i];
    if at > 0 {
        assert(!newer(latest(ranked[at]), latest(ranked[0])));
    }
}

/// Puts `project` into a ranking at its place: behind every project that is
/// more recent, before every other.
pub(crate) fn place(ranked: &mut Vec<ProjectLog>, times: &mut Vec<Option<i64>>, project: ProjectLog)
    requires
        times_of(old(ranked)@, old(times)@),
        by_recency(project_views(old(ranked)@)),
    ensures
        times_of(final(ranked)@, final(times)@),
        by_recency(project_views(final(ranked)@)),
        project_views(final(ranked)@).to_multiset() == project_views(
            old(ranked)@,
        ).to_multiset().insert(project@),
        forall|t: Option<int>| #[trigger]
            tied_at(project_views(final(ranked)@), t) == tied_at(seq![project@], t) + tied_at(
                project_views(old(ranked)@),
                t,
            ),
{
    let time = latest_commit_time(&project);
    let ghost before = project_views(ranked@);
    let ghost before_logs = ranked@;
    let mut at: usize = 0;
    while at < ranked.len() && is_newer(times[at], time)
        invariant
            at <= ranked.len(),
            times_of(ranked@, times@),
            time_view(time) == latest(project@),
            forall|i: int| 0 <= i < at ==> newer(latest(#[trigger] ranked@[i]@), latest(project@)),
        decreases ranked.len() - at,
    {
        at = at + 1;
    }
    ranked.insert(at, project);
    times.insert(at, time);
    proof {
        let after = project_views(ranked@);
        assert(after =~= before.insert(at as int, project@));
        assert forall|i: int, j: int| 0 <= i < j < after.len() implies !newer(
            latest(after[j]),
            latest(after[i]),
        ) by {
            if j < at {
                assert(!newer(latest(before[j]), latest(before[i])));
            } else if j == at {
                assert(newer(latest(before_logs[i]@), latest(project@)));
            } else if i < at {
                assert(!newer(latest(before[j - 1]), latest(before[i])));
            } else if i == at {
                if at < before.len() {
                    assert(!newer(latest(before[j - 1]), latest(before[at as int])));
                    assert(!newer(latest(before_logs[at as int]@), latest(project@)));
                }
            } else {
                assert(!newer(latest(before[j - 1]), latest(before[i - 1])));
            }
        }
        assert(after.remove(at as int) =~= before);
        vstd::seq_lib::to_multiset_remove(after, at as int);
        after.to_multiset_ensures();
        assert(after.contains(after[at as int]));
        assert(after.to_multiset() =~= before.to_multiset().insert(project@));
        assert forall|t: Option<int>| #[trigger]
            tied_at(after, t) == tied_at(seq![project@], t) + tied_at(before, t) by {
            assert forall|i: int| 0 <= i < at implies newer(
                latest(#[trigger] before[i]),
                latest(project@),
            ) by {
                assert(newer(latest(before_logs[i]@), latest(project@)));
            }
            lemma_insert_keeps_ties(before, at as int, project@, t);
        }
    }
}

/// Puts projects in the order of a report: the most recently active first,
/// and projects whose latest commits were made at one time in the order in
/// which they came.
pub fn sort_by_recency(projects: Vec<ProjectLog>) -> (ranked: Vec<ProjectLog>)
    ensures
        is_ranking_of(project_views(projects@), project_views(ranked@)),
{
    let ghost all = project_views(projects@);
    let mut waiting = projects;
    let mut ranked: Vec<ProjectLog> = Vec::new();
    let mut times: Vec<Option<i64>> = Vec::new();
    proof {
        assert(all.skip(all.len() as int) =~= Seq::<ProjectView>::empty());
        assert(project_views(ranked@) =~= Seq::<ProjectView>::empty());
    }
    while waiting.len() > 0
        invariant
            waiting@.len() <= all.len(),
            project_views(waiting@) == all.take(waiting@.len() as int),
            times_of(ranked@, times@),
            is_ranking_of(all.skip(waiting@.len() as int), project_views(ranked@)),
        decreases waiting.len(),
    {
        let ghost n = waiting@.len() as int;
        let ghost before = project_views(ranked@);
        let ghost longer = project_views(waiting@);
        let project = waiting.pop().unwrap();
        proof {
            assert(project@ == longer[n - 1]);
            assert(project@ == all[n - 1]);
            assert(project_views(waiting@) =~= all.take(n - 1));
        }
        place(&mut ranked, &mut times, project);
        proof {
            let after = project_views(ranked@);
            let x = all[n - 1];
            assert(all.skip(n - 1) =~= seq![x] + all.skip(n));
            assert(all.skip(n - 1).remove(0) =~= all.skip(n));
            vstd::seq_lib::to_multiset_remove(all.skip(n - 1), 0);
            all.skip(n - 1).to_multiset_ensures();
            assert(all.skip(n - 1).contains(all.skip(n - 1)[0]));
            assert(all.skip(n - 1).to_multiset() =~= all.skip(n).to_multiset().insert(x));
            assert forall|t: Option<int>| #[trigger]
                tied_at(after, t) == tied_at(all.skip(n - 1), t) by {
                assert(tied_at(before, t) == tied_at(all.skip(n), t));
                Seq::filter_distributes_over_add(seq![x], all.skip(n), latest_at(t));
            }
        }
    }
    proof {
        assert(all.skip(0) =~= all);
    }
    ranked
}

} // verus!
