//! The listings that a walk asks for: the root, and then every shown
//! directory of the tree, each once and in the order of its lines.

use crate::render::render_tree;
use crate::tree::{
    answer, entries_of, kept_trees, lemma_kept_entries_of, listing_at, names_distinct,
    tree_is_kept, Tree,
};
use crate::walk::{due_in, follows, lemma_entered_listing, lemma_feed_due, lemma_follows_step};
use crate::walker::{advance, all_entered, pending_path, top_left, FrameView, Status, WalkerView};
use vstd::prelude::*;

verus! {

/// The paths that a walk from `walker` asks for, in order, when every
/// request is answered from the tree `root`. `fuel` bounds their number.
pub open spec fn asked(walker: WalkerView, root: Tree, fuel: nat) -> Seq<Seq<Seq<char>>>
    decreases fuel,
{
    if fuel == 0 || walker.status != Status::Listing {
        Seq::empty()
    } else {
        let path = pending_path(walker.stack);
        seq![path] + asked(walker.feed(answer(root, path)).0, root, (fuel - 1) as nat)
    }
}

/// The paths of the shown directories among the entries of one
/// directory from its `i`-th shown entry on, and of the shown
/// directories below them: each directory first, then those below it.
/// `children` is the listing of the directory and `path` its own path.
pub open spec fn dirs_from(
    children: Seq<Tree>,
    i: int,
    path: Seq<Seq<char>>,
    show_all: bool,
    patterns: Seq<Seq<char>>,
) -> Seq<Seq<Seq<char>>>
    decreases children, kept_trees(children, show_all, patterns).len() - i,
    via dirs_from_decreases
{
    let kept = kept_trees(children, show_all, patterns);
    if 0 <= i < kept.len() {
        let here = path.push(kept[i].name);
        let own = if kept[i].is_dir {
            seq![here] + dirs_below(kept[i].children(), here, show_all, patterns)
        } else {
            Seq::empty()
        };
        own + dirs_from(children, i + 1, path, show_all, patterns)
    } else {
        Seq::empty()
    }
}

/// The paths of the shown directories below the directory at `path`,
/// whose listing is `listing`.
pub open spec fn dirs_below(
    listing: Option<Seq<Tree>>,
    path: Seq<Seq<char>>,
    show_all: bool,
    patterns: Seq<Seq<char>>,
) -> Seq<Seq<Seq<char>>>
    decreases listing, 0int,
    via dirs_below_decreases
{
    match listing {
        Some(children) => dirs_from(children, 0, path, show_all, patterns),
        None => Seq::empty(),
    }
}

#[via_fn]
proof fn dirs_from_decreases(
    children: Seq<Tree>,
    i: int,
    path: Seq<Seq<char>>,
    show_all: bool,
    patterns: Seq<Seq<char>>,
) {
    let kept = kept_trees(children, show_all, patterns);
    if 0 <= i < kept.len() {
        assert(kept.contains(kept[i]));
        children.lemma_filter_contains_rev(tree_is_kept(show_all, patterns), kept[i]);
        let k: int = choose|k: int| 0 <= k < children.len() && children[k] == kept[i];
        assert(decreases_to!(children => children[k]));
    }
}

#[via_fn]
proof fn dirs_below_decreases(
    listing: Option<Seq<Tree>>,
    path: Seq<Seq<char>>,
    show_all: bool,
    patterns: Seq<Seq<char>>,
) {
}

/// The paths of all the directories that are listed when the tree below
/// `root` is printed: the root itself, and every shown directory.
pub open spec fn listed_dirs(root: Tree, show_all: bool, patterns: Seq<Seq<char>>) -> Seq<
    Seq<Seq<char>>,
> {
    seq![Seq::empty()] + dirs_below(root.children(), Seq::empty(), show_all, patterns)
}

/// The paths that are still to be asked for on behalf of the entries
/// of the frames in `stack` that are not printed yet.
spec fn asks_due(
    stack: Seq<FrameView>,
    root: Tree,
    show_all: bool,
    patterns: Seq<Seq<char>>,
) -> Seq<Seq<Seq<char>>>
    decreases stack.len(),
{
    if stack.len() == 0 {
        Seq::empty()
    } else {
        let around = pending_path(stack.drop_last());
        dirs_from(listing_at(root, around)->0, stack.last().next, around, show_all, patterns)
            + asks_due(stack.drop_last(), root, show_all, patterns)
    }
}

/// The paths that are to be asked for from a state that waits for a
/// listing: the path it waits for, the directories below that one, and
/// what is due around it.
spec fn asks_waiting(
    stack: Seq<FrameView>,
    root: Tree,
    show_all: bool,
    patterns: Seq<Seq<char>>,
) -> Seq<Seq<Seq<char>>> {
    let path = pending_path(stack);
    seq![path] + dirs_below(listing_at(root, path), path, show_all, patterns) + asks_due(
        stack,
        root,
        show_all,
        patterns,
    )
}

/// All the paths that are to be asked for in the state `walker`.
spec fn asks_in(walker: WalkerView, root: Tree) -> Seq<Seq<Seq<char>>> {
    if walker.status == Status::Listing {
        asks_waiting(walker.stack, root, walker.show_all, walker.patterns)
    } else {
        Seq::empty()
    }
}

/// What is to be asked for once a run has ended.
spec fn asks_after(
    stack: Seq<FrameView>,
    root: Tree,
    show_all: bool,
    patterns: Seq<Seq<char>>,
) -> Seq<Seq<Seq<char>>> {
    if stack.len() > 0 {
        asks_waiting(stack, root, show_all, patterns)
    } else {
        Seq::empty()
    }
}

/// When the next entry of the innermost frame is a directory, the run
/// stops to ask for it.
proof fn lemma_asks_at_dir(
    stack: Seq<FrameView>,
    root: Tree,
    show_all: bool,
    patterns: Seq<Seq<char>>,
)
    requires
        names_distinct(root),
        follows(stack, root, show_all, patterns),
        stack.len() > 0,
        0 <= stack.last().next < stack.last().entries.len(),
        stack.last().entries[stack.last().next].is_dir,
    ensures
        asks_due(stack, root, show_all, patterns) == asks_after(
            advance(stack).stack,
            root,
            show_all,
            patterns,
        ),
{
    let around = stack.drop_last();
    let top = stack.last();
    let path = pending_path(around);
    let children = listing_at(root, path)->0;
    let node = kept_trees(children, show_all, patterns)[top.next];
    let moved = around.push(top.step());
    let here = seq![path.push(node.name)];
    let below = dirs_below(node.children(), path.push(node.name), show_all, patterns);
    let after = dirs_from(children, top.next + 1, path, show_all, patterns);
    let outer = asks_due(around, root, show_all, patterns);
    lemma_follows_step(stack, root, show_all, patterns);
    assert(top.entries[top.next] == node.entry());
    assert(moved.drop_last() =~= around);
    assert(pending_path(moved) =~= path.push(node.name));
    lemma_entered_listing(moved, root, show_all, patterns);
    assert(asks_due(stack, root, show_all, patterns) == (here + below + after) + outer);
    assert(asks_due(moved, root, show_all, patterns) == after + outer);
    assert((here + below + after) + outer =~= here + below + (after + outer));
}

/// When the next entry of the innermost frame is a file, nothing is
/// asked for on its behalf.
proof fn lemma_asks_at_file(
    stack: Seq<FrameView>,
    root: Tree,
    show_all: bool,
    patterns: Seq<Seq<char>>,
)
    requires
        follows(stack, root, show_all, patterns),
        stack.len() > 0,
        0 <= stack.last().next < stack.last().entries.len(),
        !stack.last().entries[stack.last().next].is_dir,
    ensures
        ({
            let moved = stack.drop_last().push(stack.last().step());
            &&& follows(moved, root, show_all, patterns)
            &&& advance(stack).stack == advance(moved).stack
            &&& asks_due(stack, root, show_all, patterns) == asks_due(
                moved,
                root,
                show_all,
                patterns,
            )
        }),
{
    let around = stack.drop_last();
    let top = stack.last();
    let path = pending_path(around);
    let children = listing_at(root, path)->0;
    let node = kept_trees(children, show_all, patterns)[top.next];
    let moved = around.push(top.step());
    let after = dirs_from(children, top.next + 1, path, show_all, patterns);
    lemma_follows_step(stack, root, show_all, patterns);
    assert(top.entries[top.next] == node.entry());
    assert(moved.drop_last() =~= around);
    assert(dirs_from(children, top.next, path, show_all, patterns) =~= after);
}

/// A run leaves to be asked for exactly what was due before it.
proof fn lemma_advance_asks(
    stack: Seq<FrameView>,
    root: Tree,
    show_all: bool,
    patterns: Seq<Seq<char>>,
)
    requires
        names_distinct(root),
        follows(stack, root, show_all, patterns),
    ensures
        asks_due(stack, root, show_all, patterns) == asks_after(
            advance(stack).stack,
            root,
            show_all,
            patterns,
        ),
    decreases stack.len(), top_left(stack),
{
    if stack.len() > 0 {
        let top = stack.last();
        if top.next == top.entries.len() {
            let path = pending_path(stack.drop_last());
            assert(dirs_from(listing_at(root, path)->0, top.next, path, show_all, patterns)
                =~= Seq::<Seq<Seq<char>>>::empty());
            lemma_advance_asks(stack.drop_last(), root, show_all, patterns);
        } else if top.entries[top.next].is_dir {
            lemma_asks_at_dir(stack, root, show_all, patterns);
        } else {
            lemma_asks_at_file(stack, root, show_all, patterns);
            lemma_advance_asks(stack.drop_last().push(top.step()), root, show_all, patterns);
        }
    }
}

/// One listing is asked for, and what is left to be asked for is due in
/// the state that follows.
proof fn lemma_feed_asks(walker: WalkerView, root: Tree)
    requires
        names_distinct(root),
        walker.status == Status::Listing,
        follows(walker.stack, root, walker.show_all, walker.patterns),
        all_entered(walker.stack),
    ensures
        asks_in(walker, root) == seq![pending_path(walker.stack)] + asks_in(
            walker.feed(answer(root, pending_path(walker.stack))).0,
            root,
        ),
{
    let show_all = walker.show_all;
    let patterns = walker.patterns;
    let stack = walker.stack;
    let path = pending_path(stack);
    let outer = asks_due(stack, root, show_all, patterns);
    match listing_at(root, path) {
        None => {
            assert(asks_in(walker, root) =~= seq![path] + outer);
            if stack.len() > 0 {
                lemma_advance_asks(stack, root, show_all, patterns);
            }
        },
        Some(children) => {
            let entered = stack.push(walker.enter(entries_of(children)));
            lemma_kept_entries_of(children, show_all, patterns);
            assert(entered.drop_last() =~= stack);
            assert(follows(entered, root, show_all, patterns));
            assert(asks_in(walker, root) =~= seq![path] + asks_due(
                entered,
                root,
                show_all,
                patterns,
            ));
            lemma_advance_asks(entered, root, show_all, patterns);
        },
    }
}

/// A walk asks for exactly what is due.
proof fn lemma_walk_asks(walker: WalkerView, root: Tree, fuel: nat)
    requires
        names_distinct(root),
        walker.status == Status::Listing,
        follows(walker.stack, root, walker.show_all, walker.patterns),
        all_entered(walker.stack),
        fuel > due_in(walker, root).len(),
    ensures
        asked(walker, root, fuel) == asks_in(walker, root),
    decreases fuel,
{
    lemma_feed_due(walker, root);
    lemma_feed_asks(walker, root);
    let next = walker.feed(answer(root, pending_path(walker.stack))).0;
    if next.status == Status::Listing {
        lemma_walk_asks(next, root, (fuel - 1) as nat);
    } else {
        assert(asked(next, root, (fuel - 1) as nat) =~= asks_in(next, root));
    }
}

/// A walker that starts at the root of a tree and gets every listing it
/// asks for from that tree asks for the root and then for every shown
/// directory, each once, right when its line is printed. A directory
/// that is not shown, or that lies below one that is not shown, is
/// never asked for.
pub proof fn lemma_walk_lists_shown_dirs(
    root: Tree,
    show_all: bool,
    patterns: Seq<Seq<char>>,
    fuel: nat,
)
    requires
        names_distinct(root),
        fuel > render_tree(root, show_all, patterns).len(),
    ensures
        asked(WalkerView::start(show_all, patterns), root, fuel) == listed_dirs(
            root,
            show_all,
            patterns,
        ),
{
    let start = WalkerView::start(show_all, patterns);
    assert(pending_path(start.stack) =~= Seq::<Seq<char>>::empty());
    assert(due_in(start, root) =~= render_tree(root, show_all, patterns));
    assert(asks_in(start, root) =~= listed_dirs(root, show_all, patterns));
    lemma_walk_asks(start, root, fuel);
}

} // verus!
