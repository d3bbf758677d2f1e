//! The entities of a report: commits, the branches that hold them, and the
//! projects that hold the branches.

use vstd::prelude::*;

verus! {

/// A repository that discovery found: where it lies, and the name of its
/// directory.
#[derive(Debug, PartialEq, Eq)]
pub struct RepositoryHandle {
    pub path: String,
    pub name: String,
}

/// A repository handle as mathematical values.
pub struct HandleView {
    pub path: Seq<char>,
    pub name: Seq<char>,
}

impl View for RepositoryHandle {
    type V = HandleView;

    open spec fn view(&self) -> HandleView {
        HandleView { path: self.path@, name: self.name@ }
    }
}

impl Clone for RepositoryHandle {
    fn clone(&self) -> (copy: Self)
        ensures
            copy@ == self@,
    {
        RepositoryHandle { path: self.path.clone(), name: self.name.clone() }
    }
}

/// One commit: its hash, the name of its author, its message, and the time
/// it was made, in seconds since 1970-01-01T00:00:00Z.
#[derive(Debug, PartialEq, Eq)]
pub struct CommitRecord {
    pub hash: String,
    pub author: String,
    pub message: String,
    pub time: i64,
}

/// A commit as mathematical values.
pub struct CommitView {
    pub hash: Seq<char>,
    pub author: Seq<char>,
    pub message: Seq<char>,
    pub time: int,
}

impl View for CommitRecord {
    type V = CommitView;

    open spec fn view(&self) -> CommitView {
        CommitView {
            hash: self.hash@,
            author: self.author@,
            message: self.message@,
            time: self.time as int,
        }
    }
}

impl Clone for CommitRecord {
    fn clone(&self) -> (copy: Self)
        ensures
            copy@ == self@,
    {
        CommitRecord {
            hash: self.hash.clone(),
            author: self.author.clone(),
            message: self.message.clone(),
            time: self.time,
        }
    }
}

/// The views of a sequence of commits, in the same order.
pub open spec fn commit_views(commits: Seq<CommitRecord>) -> Seq<CommitView> {
    commits.map_values(|c: CommitRecord| c@)
}

/// The commits of one branch, in the order in which the history was walked:
/// newest first.
#[derive(Debug, PartialEq, Eq)]
pub struct BranchLog {
    pub name: String,
    pub commits: Vec<CommitRecord>,
}

/// A branch as mathematical values.
pub struct BranchView {
    pub name: Seq<char>,
    pub commits: Seq<CommitView>,
}

impl View for BranchLog {
    type V = BranchView;

    open spec fn view(&self) -> BranchView {
        BranchView { name: self.name@, commits: commit_views(self.commits@) }
    }
}

/// The views of a sequence of branches, in the same order.
pub open spec fn branch_views(branches: Seq<BranchLog>) -> Seq<BranchView> {
    branches.map_values(|b: BranchLog| b@)
}

/// The history of one repository, branch by branch.
#[derive(Debug, PartialEq, Eq)]
pub struct ProjectLog {
    pub name: String,
    pub path: String,
    pub branches: Vec<BranchLog>,
}

/// A project as mathematical values.
pub struct ProjectView {
    pub name: Seq<char>,
    pub path: Seq<char>,
    pub branches: Seq<BranchView>,
}

impl View for ProjectLog {
    type V = ProjectView;

    open spec fn view(&self) -> ProjectView {
        ProjectView { name: self.name@, path: self.path@, branches: branch_views(self.branches@) }
    }
}

/// The views of a sequence of projects, in the same order.
pub open spec fn project_views(projects: Seq<ProjectLog>) -> Seq<ProjectView> {
    projects.map_values(|p: ProjectLog| p@)
}

/// Whether the commits come newest first.
pub open spec fn newest_first(commits: Seq<CommitView>) -> bool {
    forall|i: int, j: int| 0 <= i < j < commits.len() ==> commits[i].time >= commits[j].time
}

/// Whether no two of the commits have one hash.
pub open spec fn distinct_hashes(commits: Seq<CommitView>) -> bool {
    forall|i: int, j: int| 0 <= i < j < commits.len() ==> commits[i].hash != commits[j].hash
}

/// Whether a branch is as a walk of its history leaves it: each commit once,
/// the newest first.
pub open spec fn branch_in_order(branch: BranchView) -> bool {
    newest_first(branch.commits) && distinct_hashes(branch.commits)
}

/// Whether a project may stand in a report: it has a branch, and each of its
/// branches has a commit.
pub open spec fn project_is_dense(project: ProjectView) -> bool {
    &&& project.branches.len() > 0
    &&& forall|i: int| 0 <= i < project.branches.len() ==> project.branches[i].commits.len() > 0
}

} // verus!
