//! A directory tree as a mathematical value, and the proof that a walk fed
//! with the listings of such a tree finds the repositories of the tree: each
//! repository root once, in the order of the listings, and nothing that lies
//! below a repository root.

use crate::discovery::{
    after_listing, child_of, children, is_entered, is_repository, lemma_children_front, EntryView,
    WalkView,
};
use crate::model::HandleView;
use vstd::prelude::*;

verus! {

/// A directory tree: an entry, and below it what a listing of the entry
/// gives, each with its own tree. `None` stands for what cannot be listed.
pub struct DirTree {
    pub entry: EntryView,
    pub below: Option<Seq<DirTree>>,
}

/// The entries that a listing of nodes shows, in the same order.
pub open spec fn entries_of(nodes: Seq<DirTree>) -> Seq<EntryView> {
    Seq::new(nodes.len(), |i: int| nodes[i].entry)
}

/// What listing the directory `tree` gives.
pub open spec fn listing_of(tree: DirTree) -> Option<Seq<EntryView>> {
    match tree.below {
        Some(nodes) => Some(entries_of(nodes)),
        None => None,
    }
}

/// The repositories of a tree whose top directory has the handle `top`: the
/// top directory alone, if it is a repository root; else the repositories of
/// the entered directories below it, in the order of its listing; none where
/// the top directory cannot be listed.
pub open spec fn repositories_in(top: HandleView, tree: DirTree) -> Seq<HandleView>
    decreases tree, 0nat,
{
    match tree.below {
        None => Seq::empty(),
        Some(nodes) => if is_repository(entries_of(nodes)) {
            seq![top]
        } else {
            repositories_from(top, nodes, 0)
        },
    }
}

/// The repositories of the entered directories among `nodes[from ..]`, which
/// are entries of the directory `parent`.
pub open spec fn repositories_from(parent: HandleView, nodes: Seq<DirTree>, from: nat) -> Seq<
    HandleView,
>
    decreases nodes, nodes.len() - from,
{
    if from >= nodes.len() {
        Seq::empty()
    } else {
        let first = if is_entered(nodes[from as int].entry) {
            repositories_in(child_of(parent, nodes[from as int].entry.name), nodes[from as int])
        } else {
            Seq::empty()
        };
        first + repositories_from(parent, nodes, from + 1)
    }
}

/// The state of a walk once the directory `tree` was listed as the next
/// directory and, listing by listing, everything that this brought onto the
/// walk was listed too.
pub open spec fn walked(walk: WalkView, tree: DirTree) -> WalkView
    decreases tree, 0nat,
{
    let listed = after_listing(walk, listing_of(tree));
    match tree.below {
        None => listed,
        Some(nodes) => if is_repository(entries_of(nodes)) {
            listed
        } else {
            walked_from(listed, nodes, 0)
        },
    }
}

/// The state of a walk once the entered directories among `nodes[from ..]`
/// were walked, one after the other.
pub open spec fn walked_from(walk: WalkView, nodes: Seq<DirTree>, from: nat) -> WalkView
    decreases nodes, nodes.len() - from,
{
    if from >= nodes.len() {
        walk
    } else if is_entered(nodes[from as int].entry) {
        walked_from(walked(walk, nodes[from as int]), nodes, from + 1)
    } else {
        walked_from(walk, nodes, from + 1)
    }
}

/// Walking a tree takes its top directory off the walk and adds the tree's
/// repositories to what was found, whatever else the walk still holds.
pub proof fn lemma_walked_tree(walk: WalkView, tree: DirTree)
    requires
        walk.pending.len() > 0,
    ensures
        walked(walk, tree) == (WalkView {
            pending: walk.pending.drop_last(),
            found: walk.found + repositories_in(walk.pending.last(), tree),
        }),
    decreases tree, 0nat,
{
    let top = walk.pending.last();
    let rest = walk.pending.drop_last();
    match tree.below {
        None => {
            assert(walk.found + Seq::<HandleView>::empty() =~= walk.found);
        },
        Some(nodes) => {
            if is_repository(entries_of(nodes)) {
                assert(walk.found + seq![top] =~= walk.found.push(top));
            } else {
                let listed = after_listing(walk, listing_of(tree));
                assert(entries_of(nodes).skip(0) =~= entries_of(nodes));
                lemma_walked_nodes(listed, rest, top, nodes, 0);
            }
        },
    }
}

/// Walking the entered directories among `nodes[from ..]`, which lie on top
/// of the walk with the first of them next, takes them off the walk and adds
/// their repositories to what was found.
pub proof fn lemma_walked_nodes(
    walk: WalkView,
    base: Seq<HandleView>,
    parent: HandleView,
    nodes: Seq<DirTree>,
    from: nat,
)
    requires
        from <= nodes.len(),
        walk.pending == base + children(parent, entries_of(nodes).skip(from as int)).reverse(),
    ensures
        walked_from(walk, nodes, from) == (WalkView {
            pending: base,
            found: walk.found + repositories_from(parent, nodes, from),
        }),
    decreases nodes, nodes.len() - from,
{
    let entries = entries_of(nodes).skip(from as int);
    if from >= nodes.len() {
        assert(entries =~= Seq::<EntryView>::empty());
        assert(children(parent, entries).reverse() =~= Seq::<HandleView>::empty());
        assert(base + Seq::<HandleView>::empty() =~= base);
        assert(walk.found + Seq::<HandleView>::empty() =~= walk.found);
    } else {
        let node = nodes[from as int];
        let later = entries_of(nodes).skip(from as int + 1);
        assert(entries.first() == node.entry);
        assert(entries.drop_first() =~= later);
        lemma_children_front(parent, entries);
        if is_entered(node.entry) {
            let child = child_of(parent, node.entry.name);
            let tail = children(parent, later);
            assert((seq![child] + tail).reverse() =~= tail.reverse().push(child));
            assert(walk.pending =~= (base + tail.reverse()).push(child));
            assert(walk.pending.last() == child);
            assert(walk.pending.drop_last() =~= base + tail.reverse());
            lemma_walked_tree(walk, node);
            let next = walked(walk, node);
            lemma_walked_nodes(next, base, parent, nodes, from + 1);
            assert((walk.found + repositories_in(child, node)) + repositories_from(
                parent,
                nodes,
                from + 1,
            ) =~= walk.found + (repositories_in(child, node) + repositories_from(
                parent,
                nodes,
                from + 1,
            )));
        } else {
            lemma_walked_nodes(walk, base, parent, nodes, from + 1);
            assert(Seq::<HandleView>::empty() + repositories_from(parent, nodes, from + 1)
                =~= repositories_from(parent, nodes, from + 1));
        }
    }
}

/// A walk that starts at the root of a tree and is fed the listings of the
/// tree ends with nothing left to list and has found the repositories of
/// the tree.
pub proof fn lemma_walk_finds_the_repositories(root: HandleView, tree: DirTree)
    ensures
        walked(WalkView { pending: seq![root], found: Seq::empty() }, tree) == (WalkView {
            pending: Seq::empty(),
            found: repositories_in(root, tree),
        }),
{
    let start = WalkView { pending: seq![root], found: Seq::empty() };
    lemma_walked_tree(start, tree);
    assert(start.pending.drop_last() =~= Seq::<HandleView>::empty());
    assert(Seq::<HandleView>::empty() + repositories_in(root, tree) =~= repositories_in(root, tree));
}

/// Of a tree whose top directory is a repository root, the top directory is
/// the only repository, whatever lies below it.
pub proof fn lemma_nothing_below_a_repository(top: HandleView, tree: DirTree)
    requires
        tree.below is Some,
        is_repository(entries_of(tree.below->Some_0)),
    ensures
        repositories_in(top, tree) == seq![top],
{
}

} // verus!
