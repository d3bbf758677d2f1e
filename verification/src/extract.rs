//! From the history of one repository to its part of a report: the commits
//! of the requested time range and author, branch by branch.

use crate::model::{
    branch_in_order, branch_views, commit_views, project_is_dense, BranchLog, BranchView,
    CommitRecord, CommitView, HandleView, ProjectLog, ProjectView, RepositoryHandle,
};
use crate::period::TimeRange;
use vstd::prelude::*;

verus! {

/// An author filter as a mathematical value.
pub open spec fn filter_view(filter: Option<&str>) -> Option<Seq<char>> {
    match filter {
        Some(name) => Some(name@),
        None => None,
    }
}

/// Whether the filter lets a commit of `author` pass. No filter and the
/// empty filter let every author pass; any other filter lets pass the author
/// whose name it is, character for character.
pub open spec fn author_passes(filter: Option<Seq<char>>, author: Seq<char>) -> bool {
    match filter {
        Some(name) => name.len() == 0 || name == author,
        None => true,
    }
}

/// Whether a commit is one that the report asks for.
pub open spec fn commit_matches(
    commit: CommitView,
    range: TimeRange,
    filter: Option<Seq<char>>,
) -> bool {
    range.holds(commit.time) && author_passes(filter, commit.author)
}

/// The test that `commit_matches` makes, as a function of the commit.
pub open spec fn commit_test(range: TimeRange, filter: Option<Seq<char>>) -> spec_fn(
    CommitView,
) -> bool {
    |commit: CommitView| commit_matches(commit, range, filter)
}

/// The commits that the report asks for, in the order they came in.
pub open spec fn matching_commits(
    commits: Seq<CommitView>,
    range: TimeRange,
    filter: Option<Seq<char>>,
) -> Seq<CommitView> {
    commits.filter(commit_test(range, filter))
}

/// A branch reduced to the commits that the report asks for.
pub open spec fn filtered_branch(
    branch: BranchView,
    range: TimeRange,
    filter: Option<Seq<char>>,
) -> BranchView {
    BranchView { name: branch.name, commits: matching_commits(branch.commits, range, filter) }
}

/// The branches that keep a commit once each is reduced to the commits that
/// the report asks for, in the order they came in.
pub open spec fn kept_branches(
    branches: Seq<BranchView>,
    range: TimeRange,
    filter: Option<Seq<char>>,
) -> Seq<BranchView>
    decreases branches.len(),
{
    if branches.len() == 0 {
        Seq::empty()
    } else {
        let before = kept_branches(branches.drop_last(), range, filter);
        let last = filtered_branch(branches.last(), range, filter);
        if last.commits.len() > 0 {
            before.push(last)
        } else {
            before
        }
    }
}

/// What extraction gives for a repository: nothing where no branch keeps a
/// commit, else the project with the branches that keep one.
pub open spec fn extracted(
    repo: HandleView,
    branches: Seq<BranchView>,
    range: TimeRange,
    filter: Option<Seq<char>>,
) -> Option<ProjectView> {
    let kept = kept_branches(branches, range, filter);
    if kept.len() == 0 {
        None
    } else {
        Some(ProjectView { name: repo.name, path: repo.path, branches: kept })
    }
}

/// Whether the filter lets a commit of `author` pass.
pub fn author_allowed(filter: Option<&str>, author: &str) -> (allowed: bool)
    ensures
        allowed == author_passes(filter_view(filter), author@),
{
    match filter {
        Some(name) => name.unicode_len() == 0 || name.eq(author),
        None => true,
    }
}

/// Whether a commit is one that the report asks for.
pub fn is_wanted(commit: &CommitRecord, range: &TimeRange, filter: Option<&str>) -> (wanted: bool)
    ensures
        wanted == commit_matches(commit@, *range, filter_view(filter)),
{
    range.contains(commit.time) && author_allowed(filter, commit.author.as_str())
}

/// The commits that the report asks for, in the order they came in.
pub fn select_commits(commits: &Vec<CommitRecord>, range: &TimeRange, filter: Option<&str>) -> (kept:
    Vec<CommitRecord>)
    ensures
        commit_views(kept@) == matching_commits(commit_views(commits@), *range, filter_view(filter)),
{
    let mut kept: Vec<CommitRecord> = Vec::new();
    let ghost all = commit_views(commits@);
    let ghost test = commit_test(*range, filter_view(filter));
    let mut i: usize = 0;
    proof {
        reveal(Seq::filter);
        assert(all.take(0) =~= Seq::<CommitView>::empty());
        assert(commit_views(kept@) =~= all.take(0).filter(test));
    }
    while i < commits.len()
        invariant
            i <= commits.len(),
            all == commit_views(commits@),
            test == commit_test(*range, filter_view(filter)),
            commit_views(kept@) == all.take(i as int).filter(test),
        decreases commits.len() - i,
    {
        let ghost before = commit_views(kept@);
        let wanted = is_wanted(&commits[i], range, filter);
        if wanted {
            kept.push(commits[i].clone());
        }
        proof {
            reveal(Seq::filter);
            assert(all.take(i + 1).drop_last() =~= all.take(i as int));
            assert(all.take(i + 1).last() == commits@[i as int]@);
            assert(test(commits@[i as int]@) == wanted);
            if test(commits@[i as int]@) {
                assert(commit_views(kept@) =~= before.push(commits@[i as int]@));
            } else {
                assert(commit_views(kept@) =~= before);
            }
        }
        i = i + 1;
    }
    proof {
        assert(all.take(i as int) =~= all);
    }
    kept
}

/// The part of a report that one repository gives: its branches, each
/// reduced to the commits of the range and the author and left out if none of
/// its commits remains; nothing at all if no branch remains.
pub fn extract(
    repo: &RepositoryHandle,
    branches: &Vec<BranchLog>,
    range: &TimeRange,
    filter: Option<&str>,
) -> (log: Option<ProjectLog>)
    ensures
        match log {
            Some(project) => Some(project@),
            None => None,
        } == extracted(repo@, branch_views(branches@), *range, filter_view(filter)),
        log is Some ==> project_is_dense(log->Some_0@),
{
    let mut kept: Vec<BranchLog> = Vec::new();
    let ghost all = branch_views(branches@);
    let ghost wanted = filter_view(filter);
    let mut i: usize = 0;
    proof {
        assert(all.take(0) =~= Seq::<BranchView>::empty());
        assert(branch_views(kept@) =~= kept_branches(all.take(0), *range, wanted));
    }
    while i < branches.len()
        invariant
            i <= branches.len(),
            all == branch_views(branches@),
            wanted == filter_view(filter),
            branch_views(kept@) == kept_branches(all.take(i as int), *range, wanted),
            forall|k: int| 0 <= k < kept@.len() ==> (#[trigger] kept@[k])@.commits.len() > 0,
        decreases branches.len() - i,
    {
        let ghost before = branch_views(kept@);
        let commits = select_commits(&branches[i].commits, range, filter);
        if commits.len() > 0 {
            kept.push(BranchLog { name: branches[i].name.clone(), commits });
        }
        proof {
            assert(all.take(i + 1).drop_last() =~= all.take(i as int));
            assert(all.take(i + 1).last() == branches@[i as int]@);
            let reduced = filtered_branch(branches@[i as int]@, *range, wanted);
            if reduced.commits.len() > 0 {
                assert(branch_views(kept@) =~= before.push(reduced));
            } else {
                assert(branch_views(kept@) =~= before);
            }
        }
        i = i + 1;
    }
    proof {
        assert(all.take(i as int) =~= all);
    }
    if kept.len() == 0 {
        None
    } else {
        let project = ProjectLog { name: repo.name.clone(), path: repo.path.clone(), branches: kept };
        proof {
            assert forall|k: int| 0 <= k < project@.branches.len() implies project@.branches[k].commits.len()
                > 0 by {
                assert(project@.branches[k] == project.branches@[k]@);
                assert(project.branches@[k]@.commits.len() == project.branches@[k].commits@.len());
            }
        }
        Some(project)
    }
}

/// The author to filter by: the caller's, if it names one; else the
/// configured identity, if there is one; else none, so that every author
/// passes.
pub open spec fn chosen_author(
    explicit: Option<Seq<char>>,
    configured: Option<Seq<char>>,
) -> Option<Seq<char>> {
    match explicit {
        Some(name) if name.len() > 0 => explicit,
        _ => configured,
    }
}

/// The author to filter by: the caller's, if it names one; else the
/// configured identity, if there is one; else none.
pub fn effective_author<'a>(explicit: Option<&'a str>, configured: Option<&'a str>) -> (author:
    Option<&'a str>)
    ensures
        filter_view(author) == chosen_author(filter_view(explicit), filter_view(configured)),
{
    match explicit {
        Some(name) => {
            if name.unicode_len() > 0 {
                explicit
            } else {
                configured
            }
        },
        None => configured,
    }
}

/// An element of a filtered sequence stands in the sequence it was taken
/// from. The result is a place where it stands.
pub proof fn lemma_filter_source<A>(s: Seq<A>, pred: spec_fn(A) -> bool, i: int) -> (a: int)
    requires
        0 <= i < s.filter(pred).len(),
    ensures
        0 <= a < s.len(),
        s[a] == s.filter(pred)[i],
        pred(s[a]),
    decreases s.len(),
{
    reveal(Seq::filter);
    let shorter = s.drop_last();
    if pred(s.last()) && i == shorter.filter(pred).len() {
        s.len() - 1
    } else {
        lemma_filter_source(shorter, pred, i)
    }
}

/// Filtering keeps the order: two elements of a filtered sequence stand in
/// the same order in the sequence they were taken from. The result is a pair
/// of places where they stand.
pub proof fn lemma_filter_keeps_order<A>(s: Seq<A>, pred: spec_fn(A) -> bool, i: int, j: int) -> (at:
    (int, int))
    requires
        0 <= i < j < s.filter(pred).len(),
    ensures
        0 <= at.0 < at.1 < s.len(),
        s[at.0] == s.filter(pred)[i],
        s[at.1] == s.filter(pred)[j],
    decreases s.len(),
{
    reveal(Seq::filter);
    let shorter = s.drop_last();
    if pred(s.last()) && j == shorter.filter(pred).len() {
        let a = lemma_filter_source(shorter, pred, i);
        (a, s.len() - 1)
    } else {
        lemma_filter_keeps_order(shorter, pred, i, j)
    }
}

/// Every element that passes the test stands in the filtered sequence. The
/// result is a place where it stands.
pub proof fn lemma_filter_keeps_passing<A>(s: Seq<A>, pred: spec_fn(A) -> bool, a: int) -> (i: int)
    requires
        0 <= a < s.len(),
        pred(s[a]),
    ensures
        0 <= i < s.filter(pred).len(),
        s.filter(pred)[i] == s[a],
    decreases s.len(),
{
    reveal(Seq::filter);
    let shorter = s.drop_last();
    if a == s.len() - 1 {
        shorter.filter(pred).len() as int
    } else {
        lemma_filter_keeps_passing(shorter, pred, a)
    }
}

/// A branch that came newest first and without a repeated hash is still so
/// once it is reduced to the commits that the report asks for.
pub proof fn lemma_filtered_branch_in_order(
    branch: BranchView,
    range: TimeRange,
    filter: Option<Seq<char>>,
)
    requires
        branch_in_order(branch),
    ensures
        branch_in_order(filtered_branch(branch, range, filter)),
{
    let kept = filtered_branch(branch, range, filter).commits;
    assert forall|i: int, j: int| 0 <= i < j < kept.len() implies kept[i].time >= kept[j].time
        && kept[i].hash != kept[j].hash by {
        let at = lemma_filter_keeps_order(branch.commits, commit_test(range, filter), i, j);
    }
}

/// Each branch that extraction keeps is one of the branches that came in,
/// reduced to the commits that the report asks for, and holds a commit. The
/// result is the place of that branch among those that came in.
pub proof fn lemma_kept_branch_source(
    branches: Seq<BranchView>,
    range: TimeRange,
    filter: Option<Seq<char>>,
    k: int,
) -> (i: int)
    requires
        0 <= k < kept_branches(branches, range, filter).len(),
    ensures
        0 <= i < branches.len(),
        kept_branches(branches, range, filter)[k] == filtered_branch(branches[i], range, filter),
        kept_branches(branches, range, filter)[k].commits.len() > 0,
    decreases branches.len(),
{
    let shorter = branches.drop_last();
    let last = filtered_branch(branches.last(), range, filter);
    if last.commits.len() > 0 && k == kept_branches(shorter, range, filter).len() {
        branches.len() - 1
    } else {
        lemma_kept_branch_source(shorter, range, filter, k)
    }
}

/// Each branch that holds a commit which the report asks for is kept. The
/// result is its place among the kept branches.
pub proof fn lemma_branch_with_match_is_kept(
    branches: Seq<BranchView>,
    range: TimeRange,
    filter: Option<Seq<char>>,
    i: int,
    j: int,
) -> (k: int)
    requires
        0 <= i < branches.len(),
        0 <= j < branches[i].commits.len(),
        commit_matches(branches[i].commits[j], range, filter),
    ensures
        0 <= k < kept_branches(branches, range, filter).len(),
        kept_branches(branches, range, filter)[k] == filtered_branch(branches[i], range, filter),
        kept_branches(branches, range, filter)[k].commits.contains(branches[i].commits[j]),
    decreases branches.len(),
{
    let shorter = branches.drop_last();
    if i == branches.len() - 1 {
        let at = lemma_filter_keeps_passing(branches[i].commits, commit_test(range, filter), j);
        let k = kept_branches(shorter, range, filter).len() as int;
        assert(kept_branches(branches, range, filter)[k].commits[at] == branches[i].commits[j]);
        k
    } else {
        lemma_branch_with_match_is_kept(shorter, range, filter, i, j)
    }
}

/// A project that extraction gives has a branch, and each of its branches
/// has a commit.
pub proof fn lemma_extracted_is_dense(
    repo: HandleView,
    branches: Seq<BranchView>,
    range: TimeRange,
    filter: Option<Seq<char>>,
)
    requires
        extracted(repo, branches, range, filter) is Some,
    ensures
        project_is_dense(extracted(repo, branches, range, filter)->Some_0),
{
    let kept = kept_branches(branches, range, filter);
    assert forall|k: int| 0 <= k < kept.len() implies kept[k].commits.len() > 0 by {
        lemma_kept_branch_source(branches, range, filter, k);
    }
}

/// Extraction gives nothing exactly if no commit of any branch is one that
/// the report asks for.
pub proof fn lemma_nothing_exactly_without_match(
    repo: HandleView,
    branches: Seq<BranchView>,
    range: TimeRange,
    filter: Option<Seq<char>>,
)
    ensures
        extracted(repo, branches, range, filter) is None <==> (forall|i: int, j: int|
            0 <= i < branches.len() && 0 <= j < branches[i].commits.len() ==> !commit_matches(
                #[trigger] branches[i].commits[j],
                range,
                filter,
            )),
{
    let kept = kept_branches(branches, range, filter);
    if kept.len() > 0 {
        let i = lemma_kept_branch_source(branches, range, filter, 0);
        let j = lemma_filter_source(branches[i].commits, commit_test(range, filter), 0);
        assert(commit_matches(branches[i].commits[j], range, filter));
    } else {
        assert forall|i: int, j: int|
            0 <= i < branches.len() && 0 <= j < branches[i].commits.len() implies !commit_matches(
            #[trigger] branches[i].commits[j],
            range,
            filter,
        ) by {
            if commit_matches(branches[i].commits[j], range, filter) {
                lemma_branch_with_match_is_kept(branches, range, filter, i, j);
            }
        }
    }
}

/// Every commit of a project that extraction gives lies in the range and
/// passes the author filter: under a filter that names an author, each is by
/// that author.
pub proof fn lemma_extracted_commits_match(
    repo: HandleView,
    branches: Seq<BranchView>,
    range: TimeRange,
    filter: Option<Seq<char>>,
    k: int,
    j: int,
)
    requires
        extracted(repo, branches, range, filter) is Some,
        0 <= k < extracted(repo, branches, range, filter)->Some_0.branches.len(),
        0 <= j < extracted(repo, branches, range, filter)->Some_0.branches[k].commits.len(),
    ensures
        range.holds(extracted(repo, branches, range, filter)->Some_0.branches[k].commits[j].time),
        filter is Some && filter->Some_0.len() > 0 ==> extracted(
            repo,
            branches,
            range,
            filter,
        )->Some_0.branches[k].commits[j].author == filter->Some_0,
{
    let i = lemma_kept_branch_source(branches, range, filter, k);
    let a = lemma_filter_source(branches[i].commits, commit_test(range, filter), j);
}

/// Where each branch of a repository came newest first and without a
/// repeated hash, so does each branch of what extraction gives.
pub proof fn lemma_extracted_branches_in_order(
    repo: HandleView,
    branches: Seq<BranchView>,
    range: TimeRange,
    filter: Option<Seq<char>>,
    k: int,
)
    requires
        forall|i: int| 0 <= i < branches.len() ==> branch_in_order(#[trigger] branches[i]),
        extracted(repo, branches, range, filter) is Some,
        0 <= k < extracted(repo, branches, range, filter)->Some_0.branches.len(),
    ensures
        branch_in_order(extracted(repo, branches, range, filter)->Some_0.branches[k]),
{
    let i = lemma_kept_branch_source(branches, range, filter, k);
    lemma_filtered_branch_in_order(branches[i], range, filter);
}

} // verus!
