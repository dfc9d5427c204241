//! A directory tree as a mathematical value, and what the file system
//! answers when it is asked for one of its directories.

use crate::entry::{is_kept, kept_entries, EntryView};
use vstd::prelude::*;

verus! {

/// A file or a directory with all that lies below it. `listing` holds
/// the children of a directory in the order in which the file system
/// yields them; a directory that cannot be listed has none.
pub struct Tree {
    pub name: Seq<char>,
    pub is_dir: bool,
    pub listing: Option<Seq<Tree>>,
}

impl Tree {
    /// What a listing reports about this node.
    pub open spec fn entry(self) -> EntryView {
        EntryView { name: self.name, is_dir: self.is_dir }
    }

    /// The children that listing this node yields. A file yields none,
    /// nor does a directory that cannot be listed.
    pub open spec fn children(self) -> Option<Seq<Tree>> {
        if self.is_dir {
            self.listing
        } else {
            None
        }
    }
}

/// What a listing reports about each of `children`.
pub open spec fn entries_of(children: Seq<Tree>) -> Seq<EntryView> {
    children.map_values(|node: Tree| node.entry())
}

/// The test that tells the children that are shown from the others.
pub open spec fn tree_is_kept(show_all: bool, patterns: Seq<Seq<char>>) -> spec_fn(Tree) -> bool {
    |node: Tree| is_kept(node.name, show_all, patterns)
}

/// The children in `children` that are shown.
pub open spec fn kept_trees(children: Seq<Tree>, show_all: bool, patterns: Seq<Seq<char>>) -> Seq<
    Tree,
> {
    children.filter(tree_is_kept(show_all, patterns))
}

/// No two of `children` have the same name.
pub open spec fn distinct_names(children: Seq<Tree>) -> bool {
    forall|i: int, j: int|
        0 <= i < j < children.len() ==> (#[trigger] children[i]).name != (
        #[trigger] children[j]).name
}

/// The child called `name`, if there is one.
pub open spec fn child_named(children: Seq<Tree>, name: Seq<char>) -> Option<Tree> {
    if exists|i: int| 0 <= i < children.len() && (#[trigger] children[i]).name == name {
        Some(
            children[choose|i: int| 0 <= i < children.len() && (#[trigger] children[i]).name
                == name],
        )
    } else {
        None
    }
}

/// What listing the directory at `path` below `root` yields. The empty
/// path is the root itself. A path that leads to no directory yields
/// nothing.
pub open spec fn listing_at(root: Tree, path: Seq<Seq<char>>) -> Option<Seq<Tree>>
    decreases path.len(),
{
    if path.len() == 0 {
        root.children()
    } else {
        match listing_at(root, path.drop_last()) {
            Some(children) => match child_named(children, path.last()) {
                Some(child) => child.children(),
                None => None,
            },
            None => None,
        }
    }
}

/// What the file system answers when asked to list `path`.
pub open spec fn answer(root: Tree, path: Seq<Seq<char>>) -> Option<Seq<EntryView>> {
    match listing_at(root, path) {
        Some(children) => Some(entries_of(children)),
        None => None,
    }
}

/// In every directory that can be reached from the root, no two children
/// have the same name.
#[verifier::opaque]
pub open spec fn names_distinct(root: Tree) -> bool {
    forall|path: Seq<Seq<char>>| #[trigger]
        listing_at(root, path) matches Some(children) ==> distinct_names(children)
}

/// Filtering what a listing reports is reporting the children that are
/// shown.
pub proof fn lemma_kept_entries_of(children: Seq<Tree>, show_all: bool, patterns: Seq<Seq<char>>)
    ensures
        kept_entries(entries_of(children), show_all, patterns) == entries_of(
            kept_trees(children, show_all, patterns),
        ),
    decreases children.len(),
{
    reveal(Seq::filter);
    if children.len() > 0 {
        lemma_kept_entries_of(children.drop_last(), show_all, patterns);
        assert(entries_of(children).drop_last() =~= entries_of(children.drop_last()));
    }
}

/// Every child that is shown is one of the children.
pub proof fn lemma_kept_is_child(
    children: Seq<Tree>,
    show_all: bool,
    patterns: Seq<Seq<char>>,
    i: int,
)
    requires
        0 <= i < kept_trees(children, show_all, patterns).len(),
    ensures
        children.contains(kept_trees(children, show_all, patterns)[i]),
        is_kept(kept_trees(children, show_all, patterns)[i].name, show_all, patterns),
{
    let kept = kept_trees(children, show_all, patterns);
    let pred = tree_is_kept(show_all, patterns);
    children.lemma_filter_contains_rev(pred, kept[i]);
    children.lemma_filter_pred(pred, i);
}

/// Where names are distinct, a name finds the child that bears it.
pub proof fn lemma_child_named(children: Seq<Tree>, child: Tree)
    requires
        distinct_names(children),
        children.contains(child),
    ensures
        child_named(children, child.name) == Some(child),
{
    let i: int = choose|i: int| 0 <= i < children.len() && children[i] == child;
    let j: int = choose|j: int|
        0 <= j < children.len() && (#[trigger] children[j]).name == child.name;
    assert(i == j) by {
        assert(children[i].name == children[j].name);
    }
}

} // verus!
