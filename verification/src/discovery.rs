//! Finding the repositories below a root directory.
//!
//! The walk itself is made by the caller, which alone can list a directory.
//! What is decided here is what a listing means: whether the directory is a
//! repository, and if not, which of its entries are walked next. A walk goes
//! depth first, in the order of each listing.

use crate::model::{HandleView, RepositoryHandle};
use vstd::prelude::*;

verus! {

/// One entry of a directory listing.
#[derive(Debug, PartialEq, Eq)]
pub struct DirEntry {
    pub name: String,
    pub is_dir: bool,
    pub is_symlink: bool,
}

/// An entry as mathematical values.
pub struct EntryView {
    pub name: Seq<char>,
    pub is_dir: bool,
    pub is_symlink: bool,
}

impl View for DirEntry {
    type V = EntryView;

    open spec fn view(&self) -> EntryView {
        EntryView { name: self.name@, is_dir: self.is_dir, is_symlink: self.is_symlink }
    }
}

/// The views of a listing's entries, in the same order.
pub open spec fn entry_views(entries: Seq<DirEntry>) -> Seq<EntryView> {
    entries.map_values(|e: DirEntry| e@)
}

/// The views of a sequence of handles, in the same order.
pub open spec fn handle_views(handles: Seq<RepositoryHandle>) -> Seq<HandleView> {
    handles.map_values(|h: RepositoryHandle| h@)
}

/// Whether a listing is that of a repository root: it has an entry named
/// `.git`, of whatever kind.
pub open spec fn is_repository(entries: Seq<EntryView>) -> bool {
    exists|i: int| 0 <= i < entries.len() && (#[trigger] entries[i]).name == ".git"@
}

/// Whether a directory of this name is passed over: a hidden one, whose
/// name begins with a dot, and the two that hold fetched dependencies and
/// build outputs, `node_modules` and `target`.
pub open spec fn is_passed_over(name: Seq<char>) -> bool {
    (name.len() > 0 && name[0] == '.') || name == "node_modules"@ || name == "target"@
}

/// Whether the walk goes into an entry: a directory that is no symbolic
/// link and is not passed over.
pub open spec fn is_entered(entry: EntryView) -> bool {
    entry.is_dir && !entry.is_symlink && !is_passed_over(entry.name)
}

/// The path of the entry `name` of the directory at `parent`.
pub open spec fn joined(parent: Seq<char>, name: Seq<char>) -> Seq<char> {
    if parent.len() > 0 && parent.last() == '/' {
        parent + name
    } else {
        parent + "/"@ + name
    }
}

/// The handle of the entry `name` of the directory `parent`.
pub open spec fn child_of(parent: HandleView, name: Seq<char>) -> HandleView {
    HandleView { path: joined(parent.path, name), name }
}

/// The entries of `parent` that the walk goes into, in the order of the
/// listing.
pub open spec fn children(parent: HandleView, entries: Seq<EntryView>) -> Seq<HandleView>
    decreases entries.len(),
{
    if entries.len() == 0 {
        Seq::empty()
    } else {
        let before = children(parent, entries.drop_last());
        if is_entered(entries.last()) {
            before.push(child_of(parent, entries.last().name))
        } else {
            before
        }
    }
}

/// The state of a walk as mathematical values: the directories still to be
/// listed, the next one last, and the repositories found so far.
pub struct WalkView {
    pub pending: Seq<HandleView>,
    pub found: Seq<HandleView>,
}

/// The state of a walk after the next directory was listed. A directory
/// that could not be listed (`None`) is left behind. A repository root is
/// recorded and nothing below it is walked. Of any other directory the
/// entered entries are walked next, the first of the listing first.
pub open spec fn after_listing(walk: WalkView, listing: Option<Seq<EntryView>>) -> WalkView {
    if walk.pending.len() == 0 {
        walk
    } else {
        let dir = walk.pending.last();
        let rest = walk.pending.drop_last();
        match listing {
            None => WalkView { pending: rest, found: walk.found },
            Some(entries) => if is_repository(entries) {
                WalkView { pending: rest, found: walk.found.push(dir) }
            } else {
                WalkView { pending: rest + children(dir, entries).reverse(), found: walk.found }
            },
        }
    }
}

/// Whether a listing is that of a repository root.
pub fn has_marker(entries: &Vec<DirEntry>) -> (found: bool)
    ensures
        found == is_repository(entry_views(entries@)),
{
    let mut i: usize = 0;
    while i < entries.len()
        invariant
            i <= entries.len(),
            forall|k: int| 0 <= k < i ==> (#[trigger] entries@[k])@.name != ".git"@,
        decreases entries.len() - i,
    {
        if entries[i].name.as_str().eq(".git") {
            assert(entry_views(entries@)[i as int].name == ".git"@);
            return true;
        }
        i = i + 1;
    }
    proof {
        assert forall|k: int| 0 <= k < entry_views(entries@).len() implies (#[trigger] entry_views(
            entries@,
        )[k]).name != ".git"@ by {
            assert(entries@[k]@.name != ".git"@);
        }
    }
    false
}

/// Whether a directory of this name is passed over.
pub fn passes_over(name: &str) -> (skipped: bool)
    ensures
        skipped == is_passed_over(name@),
{
    if name.unicode_len() > 0 && name.get_char(0) == '.' {
        true
    } else {
        name.eq("node_modules") || name.eq("target")
    }
}

/// Whether the walk goes into an entry.
pub fn enters(entry: &DirEntry) -> (entered: bool)
    ensures
        entered == is_entered(entry@),
{
    entry.is_dir && !entry.is_symlink && !passes_over(entry.name.as_str())
}

/// The path of the entry `name` of the directory at `parent`.
pub fn join(parent: &str, name: &str) -> (path: String)
    ensures
        path@ == joined(parent@, name@),
{
    let len = parent.unicode_len();
    let mut path = String::from_str(parent);
    if len == 0 || parent.get_char(len - 1) != '/' {
        path.append("/");
    }
    path.append(name);
    path
}

/// A walk over a directory tree in search of repositories.
pub struct Walk {
    pending: Vec<RepositoryHandle>,
    found: Vec<RepositoryHandle>,
}

impl View for Walk {
    type V = WalkView;

    closed spec fn view(&self) -> WalkView {
        WalkView { pending: handle_views(self.pending@), found: handle_views(self.found@) }
    }
}

impl Walk {
    /// A walk that is about to list `root`.
    pub fn start(root: RepositoryHandle) -> (walk: Walk)
        ensures
            walk@ == (WalkView { pending: seq![root@], found: Seq::empty() }),
    {
        let mut pending: Vec<RepositoryHandle> = Vec::new();
        pending.push(root);
        let walk = Walk { pending, found: Vec::new() };
        proof {
            assert(walk@.pending =~= seq![root@]);
            assert(walk@.found =~= Seq::<HandleView>::empty());
        }
        walk
    }

    /// The directory to be listed next, or `None` once the walk is over.
    pub fn next(&self) -> (dir: Option<&RepositoryHandle>)
        ensures
            match dir {
                Some(handle) => self@.pending.len() > 0 && handle@ == self@.pending.last(),
                None => self@.pending.len() == 0,
            },
    {
        let n = self.pending.len();
        if n == 0 {
            None
        } else {
            Some(&self.pending[n - 1])
        }
    }

    /// Takes the listing of the directory that `next` gave, or `None` where
    /// it could not be listed, and moves the walk on. Once the walk is over,
    /// nothing changes.
    pub fn visit(&mut self, listing: Option<&Vec<DirEntry>>)
        ensures
            final(self)@ == after_listing(
                old(self)@,
                match listing {
                    Some(entries) => Some(entry_views(entries@)),
                    None => None,
                },
            ),
    {
        let ghost before = self@;
        let dir = match self.pending.pop() {
            Some(dir) => dir,
            None => {
                return ;
            },
        };
        proof {
            assert(handle_views(self.pending@) =~= before.pending.drop_last());
            assert(dir@ == before.pending.last());
        }
        let entries = match listing {
            Some(entries) => entries,
            None => {
                return ;
            },
        };
        if has_marker(entries) {
            self.found.push(dir);
            proof {
                assert(handle_views(self.found@) =~= before.found.push(dir@));
            }
            return ;
        }
        let ghost rest = handle_views(self.pending@);
        let ghost all = entry_views(entries@);
        let mut i: usize = entries.len();
        proof {
            assert(all.skip(all.len() as int) =~= Seq::<EntryView>::empty());
            assert(rest + Seq::<HandleView>::empty() =~= rest);
            lemma_children_reversed_empty(dir@);
        }
        while i > 0
            invariant
                i <= entries.len(),
                all == entry_views(entries@),
                handle_views(self.found@) == before.found,
                handle_views(self.pending@) == rest + children(dir@, all.skip(i as int)).reverse(),
            decreases i,
        {
            i = i - 1;
            let ghost stack = handle_views(self.pending@);
            proof {
                lemma_children_front(dir@, all.skip(i as int));
                assert(all.skip(i as int).drop_first() =~= all.skip(i + 1));
                assert(all.skip(i as int).first() == entries@[i as int]@);
            }
            if enters(&entries[i]) {
                let child = RepositoryHandle {
                    path: join(dir.path.as_str(), entries[i].name.as_str()),
                    name: entries[i].name.clone(),
                };
                self.pending.push(child);
                proof {
                    let tail = children(dir@, all.skip(i + 1));
                    assert(child@ == child_of(dir@, entries@[i as int]@.name));
                    assert((seq![child@] + tail).reverse() =~= tail.reverse().push(child@));
                    assert(handle_views(self.pending@) =~= stack.push(child@));
                    assert(rest + (seq![child@] + tail).reverse() =~= (rest
                        + tail.reverse()).push(child@));
                }
            }
        }
        proof {
            assert(all.skip(0) =~= all);
        }
    }

    /// Whether the walk is over.
    pub fn is_done(&self) -> (done: bool)
        ensures
            done == (self@.pending.len() == 0),
    {
        self.pending.len() == 0
    }

    /// The repositories found so far, in the order in which they were found.
    pub fn into_found(self) -> (found: Vec<RepositoryHandle>)
        ensures
            handle_views(found@) == self@.found,
    {
        self.found
    }
}

/// Of no entries, none is walked.
pub proof fn lemma_children_reversed_empty(parent: HandleView)
    ensures
        children(parent, Seq::<EntryView>::empty()).reverse() == Seq::<HandleView>::empty(),
{
    assert(children(parent, Seq::<EntryView>::empty()).reverse() =~= Seq::<HandleView>::empty());
}

/// The entries that are walked, told from the front of the listing: the
/// first entry, if it is entered, and then those of the rest.
pub proof fn lemma_children_front(parent: HandleView, entries: Seq<EntryView>)
    requires
        entries.len() > 0,
    ensures
        children(parent, entries) == if is_entered(entries.first()) {
            seq![child_of(parent, entries.first().name)] + children(parent, entries.drop_first())
        } else {
            children(parent, entries.drop_first())
        },
    decreases entries.len(),
{
    if entries.len() == 1 {
        assert(entries.drop_last() =~= Seq::<EntryView>::empty());
        assert(entries.drop_first() =~= Seq::<EntryView>::empty());
        assert(children(parent, entries.drop_last()) =~= Seq::<HandleView>::empty());
        assert(seq![child_of(parent, entries.first().name)] + Seq::<HandleView>::empty()
            =~= Seq::<HandleView>::empty().push(child_of(parent, entries.first().name)));
    } else {
        let shorter = entries.drop_last();
        lemma_children_front(parent, shorter);
        assert(shorter.first() == entries.first());
        assert(shorter.drop_first() =~= entries.drop_first().drop_last());
        assert(entries.drop_first().last() == entries.last());
        let inner = children(parent, shorter.drop_first());
        let head = seq![child_of(parent, entries.first().name)];
        let tail = child_of(parent, entries.last().name);
        assert((head + inner).push(tail) =~= head + inner.push(tail));
    }
}

} // verus!
