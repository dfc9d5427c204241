//! A whole walk, and the proof that a `Walker` that is answered from a
//! directory tree prints the lines of that tree.

use crate::render::{
    child_prefix, entry_line, lemma_render_from_unfold, render_below, render_from, render_tree,
};
use crate::tree::{
    answer, distinct_names, entries_of, kept_trees, lemma_child_named, lemma_kept_entries_of,
    lemma_kept_is_child, listing_at, names_distinct, Tree,
};
use crate::walker::{
    advance, all_entered, entered_below_top, lemma_advance_entered, pending_path, pending_prefix,
    top_left, FrameView, Status, WalkerView,
};
use vstd::prelude::*;

verus! {

/// The state in which a walk from `walker` ends, and all the lines it
/// prints on the way, when every request is answered from the tree
/// `root`. `fuel` bounds the number of listings.
pub open spec fn walk(walker: WalkerView, root: Tree, fuel: nat) -> (WalkerView, Seq<Seq<char>>)
    decreases fuel,
{
    if fuel == 0 || walker.status != Status::Listing {
        (walker, Seq::empty())
    } else {
        let fed = walker.feed(answer(root, pending_path(walker.stack)));
        let rest = walk(fed.0, root, (fuel - 1) as nat);
        (rest.0, fed.1 + rest.1)
    }
}

/// Every frame of `stack` holds the shown entries of the directory that
/// the frames around it lead to, with the prefix that belongs to it.
pub(crate) open spec fn follows(
    stack: Seq<FrameView>,
    root: Tree,
    show_all: bool,
    patterns: Seq<Seq<char>>,
) -> bool
    decreases stack.len(),
{
    if stack.len() == 0 {
        true
    } else {
        let around = stack.drop_last();
        let top = stack.last();
        &&& follows(around, root, show_all, patterns)
        &&& all_entered(around)
        &&& top.in_range()
        &&& top.prefix == pending_prefix(around)
        &&& listing_at(root, pending_path(around)) matches Some(children)
        &&& top.entries == entries_of(kept_trees(children, show_all, patterns))
    }
}

/// The lines that are still due for the entries of the frames in
/// `stack` that are not printed yet, innermost frame first.
pub(crate) open spec fn due(
    stack: Seq<FrameView>,
    root: Tree,
    show_all: bool,
    patterns: Seq<Seq<char>>,
) -> Seq<Seq<char>>
    decreases stack.len(),
{
    if stack.len() == 0 {
        Seq::empty()
    } else {
        let around = stack.drop_last();
        let top = stack.last();
        render_from(
            listing_at(root, pending_path(around))->0,
            top.next,
            top.prefix,
            show_all,
            patterns,
        ) + due(around, root, show_all, patterns)
    }
}

/// The lines that are due below the directory that was entered last.
pub(crate) open spec fn due_below(
    stack: Seq<FrameView>,
    root: Tree,
    show_all: bool,
    patterns: Seq<Seq<char>>,
) -> Seq<Seq<char>> {
    match listing_at(root, pending_path(stack)) {
        Some(children) => render_from(children, 0, pending_prefix(stack), show_all, patterns),
        None => Seq::empty(),
    }
}

/// All the lines that are due in the state `walker`.
pub(crate) open spec fn due_in(walker: WalkerView, root: Tree) -> Seq<Seq<char>> {
    if walker.status == Status::Listing {
        due_below(walker.stack, root, walker.show_all, walker.patterns) + due(
            walker.stack,
            root,
            walker.show_all,
            walker.patterns,
        )
    } else {
        Seq::empty()
    }
}

/// What is due once a run has ended: the lines below the directory that
/// was entered, and the entries that are left around it.
spec fn due_after(
    stack: Seq<FrameView>,
    root: Tree,
    show_all: bool,
    patterns: Seq<Seq<char>>,
) -> Seq<Seq<char>> {
    if stack.len() > 0 {
        due_below(stack, root, show_all, patterns) + due(stack, root, show_all, patterns)
    } else {
        Seq::empty()
    }
}

/// Printing one more entry of the innermost frame keeps the frames in
/// step with the tree.
pub(crate) proof fn lemma_follows_step(
    stack: Seq<FrameView>,
    root: Tree,
    show_all: bool,
    patterns: Seq<Seq<char>>,
)
    requires
        follows(stack, root, show_all, patterns),
        stack.len() > 0,
        0 <= stack.last().next < stack.last().entries.len(),
    ensures
        follows(stack.drop_last().push(stack.last().step()), root, show_all, patterns),
        due(stack.drop_last().push(stack.last().step()), root, show_all, patterns) == render_from(
            listing_at(root, pending_path(stack.drop_last()))->0,
            stack.last().next + 1,
            stack.last().prefix,
            show_all,
            patterns,
        ) + due(stack.drop_last(), root, show_all, patterns),
{
    let around = stack.drop_last();
    let moved = around.push(stack.last().step());
    assert(moved.drop_last() =~= around);
}

/// The directory that was entered last is the one that its path leads
/// to.
pub(crate) proof fn lemma_entered_listing(
    stack: Seq<FrameView>,
    root: Tree,
    show_all: bool,
    patterns: Seq<Seq<char>>,
)
    requires
        names_distinct(root),
        follows(stack, root, show_all, patterns),
        stack.len() > 0,
        stack.last().entered(),
    ensures
        listing_at(root, pending_path(stack)) == kept_trees(
            listing_at(root, pending_path(stack.drop_last()))->0,
            show_all,
            patterns,
        )[stack.last().next - 1].children(),
{
    let around = stack.drop_last();
    let top = stack.last();
    let children = listing_at(root, pending_path(around))->0;
    let kept = kept_trees(children, show_all, patterns);
    let node = kept[top.next - 1];
    let path = pending_path(stack);
    assert(top.entries[top.next - 1] == node.entry());
    assert(path.drop_last() =~= pending_path(around));
    assert(path.last() == node.name);
    lemma_kept_is_child(children, show_all, patterns, top.next - 1);
    assert(distinct_names(children)) by {
        reveal(names_distinct);
    }
    lemma_child_named(children, node);
}

/// Frames that are in step with the tree have entered a directory, all
/// but the innermost.
proof fn lemma_follows_entered(
    stack: Seq<FrameView>,
    root: Tree,
    show_all: bool,
    patterns: Seq<Seq<char>>,
)
    requires
        follows(stack, root, show_all, patterns),
    ensures
        entered_below_top(stack),
{
    if stack.len() > 0 {
        let around = stack.drop_last();
        assert forall|k: int| 0 <= k < stack.len() - 1 implies (#[trigger] stack[k]).entered() by {
            assert(stack[k] == around[k]);
        }
    }
}

/// What is due when the next entry of the innermost frame is a
/// directory: its line, which the run prints, then what lies below it
/// and what is left around it.
proof fn lemma_due_at_dir(
    stack: Seq<FrameView>,
    root: Tree,
    show_all: bool,
    patterns: Seq<Seq<char>>,
)
    requires
        names_distinct(root),
        follows(stack, root, show_all, patterns),
        stack.len() > 0,
        0 <= stack.last().next < stack.last().entries.len(),
        stack.last().entries[stack.last().next].is_dir,
    ensures
        advance(stack).stack == stack.drop_last().push(stack.last().step()),
        advance(stack).lines.len() == 1,
        follows(advance(stack).stack, root, show_all, patterns),
        due(stack, root, show_all, patterns) == advance(stack).lines + due_after(
            advance(stack).stack,
            root,
            show_all,
            patterns,
        ),
{
    let around = stack.drop_last();
    let top = stack.last();
    let children = listing_at(root, pending_path(around))->0;
    let outer = due(around, root, show_all, patterns);
    let i: int = top.next;
    let kept = kept_trees(children, show_all, patterns);
    let node = kept[i];
    let is_last = i == kept.len() - 1;
    let moved = around.push(top.step());
    let line = seq![entry_line(top.prefix, node.name, is_last)];
    let below = render_below(node, child_prefix(top.prefix, is_last), show_all, patterns);
    let after = render_from(children, i + 1, top.prefix, show_all, patterns);
    lemma_follows_step(stack, root, show_all, patterns);
    lemma_render_from_unfold(children, i, top.prefix, show_all, patterns);
    assert(top.entries[i] == node.entry());
    assert(moved.last() == top.step());
    assert(moved.drop_last() =~= around);
    lemma_entered_listing(moved, root, show_all, patterns);
    assert(due_below(moved, root, show_all, patterns) == below);
    assert(advance(stack).lines == line);
    assert((line + below + after) + outer =~= line + (below + (after + outer)));
}

/// What is due when the next entry of the innermost frame is a file: its
/// line, and what is due once it is printed.
proof fn lemma_due_at_file(
    stack: Seq<FrameView>,
    root: Tree,
    show_all: bool,
    patterns: Seq<Seq<char>>,
)
    requires
        follows(stack, root, show_all, patterns),
        stack.len() > 0,
        0 <= stack.last().next < stack.last().entries.len(),
        !stack.last().entries[stack.last().next].is_dir,
    ensures
        ({
            let moved = stack.drop_last().push(stack.last().step());
            &&& follows(moved, root, show_all, patterns)
            &&& advance(stack).stack == advance(moved).stack
            &&& advance(stack).lines.len() > 0
            &&& forall|tail: Seq<Seq<char>>|
                due(moved, root, show_all, patterns) == advance(moved).lines + tail ==> due(
                    stack,
                    root,
                    show_all,
                    patterns,
                ) == advance(stack).lines + tail
        }),
{
    let around = stack.drop_last();
    let top = stack.last();
    let children = listing_at(root, pending_path(around))->0;
    let outer = due(around, root, show_all, patterns);
    let i: int = top.next;
    let kept = kept_trees(children, show_all, patterns);
    let node = kept[i];
    let is_last = i == kept.len() - 1;
    let moved = around.push(top.step());
    let line = seq![entry_line(top.prefix, node.name, is_last)];
    let below = render_below(node, child_prefix(top.prefix, is_last), show_all, patterns);
    let after = render_from(children, i + 1, top.prefix, show_all, patterns);
    lemma_follows_step(stack, root, show_all, patterns);
    lemma_render_from_unfold(children, i, top.prefix, show_all, patterns);
    assert(top.entries[i] == node.entry());
    assert(below =~= Seq::<Seq<char>>::empty());
    assert(advance(stack).lines == line + advance(moved).lines);
    assert forall|tail: Seq<Seq<char>>|
        due(moved, root, show_all, patterns) == advance(moved).lines + tail implies due(
        stack,
        root,
        show_all,
        patterns,
    ) == advance(stack).lines + tail by {
        let printed = advance(moved).lines;
        assert(after + outer == printed + tail);
        assert((line + below + after) + outer =~= line + (after + outer));
        assert((line + printed) + tail =~= line + (printed + tail));
    }
}

/// Nothing is due for a frame that has no entry left.
proof fn lemma_due_at_end(
    stack: Seq<FrameView>,
    root: Tree,
    show_all: bool,
    patterns: Seq<Seq<char>>,
)
    requires
        follows(stack, root, show_all, patterns),
        stack.len() > 0,
        stack.last().next == stack.last().entries.len(),
    ensures
        advance(stack) == advance(stack.drop_last()),
        due(stack, root, show_all, patterns) == due(stack.drop_last(), root, show_all, patterns),
{
    let around = stack.drop_last();
    let top = stack.last();
    let children = listing_at(root, pending_path(around))->0;
    assert(render_from(children, top.next, top.prefix, show_all, patterns) =~= Seq::<
        Seq<char>,
    >::empty());
    assert(due(stack, root, show_all, patterns) =~= due(around, root, show_all, patterns));
}

/// A run prints a part of what is due, and what is left is due in the
/// state it ends in.
proof fn lemma_advance_due(
    stack: Seq<FrameView>,
    root: Tree,
    show_all: bool,
    patterns: Seq<Seq<char>>,
)
    requires
        names_distinct(root),
        follows(stack, root, show_all, patterns),
    ensures
        follows(advance(stack).stack, root, show_all, patterns),
        all_entered(advance(stack).stack),
        advance(stack).stack.len() > 0 ==> advance(stack).lines.len() > 0,
        due(stack, root, show_all, patterns) == advance(stack).lines + due_after(
            advance(stack).stack,
            root,
            show_all,
            patterns,
        ),
    decreases stack.len(), top_left(stack),
{
    lemma_follows_entered(stack, root, show_all, patterns);
    lemma_advance_entered(stack);
    if stack.len() == 0 {
        assert(due(stack, root, show_all, patterns) =~= advance(stack).lines + due_after(
            advance(stack).stack,
            root,
            show_all,
            patterns,
        ));
    } else if stack.last().next == stack.last().entries.len() {
        lemma_due_at_end(stack, root, show_all, patterns);
        lemma_advance_due(stack.drop_last(), root, show_all, patterns);
    } else if stack.last().entries[stack.last().next].is_dir {
        lemma_due_at_dir(stack, root, show_all, patterns);
    } else {
        let moved = stack.drop_last().push(stack.last().step());
        lemma_due_at_file(stack, root, show_all, patterns);
        lemma_advance_due(moved, root, show_all, patterns);
    }
}

/// One listing prints a part of what is due, and what is left is due
/// in the state that follows.
pub(crate) proof fn lemma_feed_due(walker: WalkerView, root: Tree)
    requires
        names_distinct(root),
        walker.status == Status::Listing,
        follows(walker.stack, root, walker.show_all, walker.patterns),
        all_entered(walker.stack),
    ensures
        ({
            let fed = walker.feed(answer(root, pending_path(walker.stack)));
            &&& due_in(walker, root) == fed.1 + due_in(fed.0, root)
            &&& fed.0.show_all == walker.show_all
            &&& fed.0.patterns == walker.patterns
            &&& follows(fed.0.stack, root, walker.show_all, walker.patterns)
            &&& all_entered(fed.0.stack)
            &&& fed.0.status == Status::Listing ==> fed.1.len() > 0 && fed.0.stack.len() > 0
            &&& fed.0.status != Status::Listing ==> fed.0.stack.len() == 0
            &&& fed.0.status == Status::Failed <==> walker.stack.len() == 0
                && root.children() is None
        }),
{
    let show_all = walker.show_all;
    let patterns = walker.patterns;
    let stack = walker.stack;
    let fed = walker.feed(answer(root, pending_path(stack)));
    let outer = due(stack, root, show_all, patterns);
    if stack.len() == 0 {
        assert(pending_path(stack) =~= Seq::<Seq<char>>::empty());
    }
    match listing_at(root, pending_path(stack)) {
        None => {
            assert(due_in(walker, root) =~= outer);
            if stack.len() > 0 {
                lemma_advance_due(stack, root, show_all, patterns);
            }
        },
        Some(children) => {
            let frame = walker.enter(entries_of(children));
            let entered = stack.push(frame);
            lemma_kept_entries_of(children, show_all, patterns);
            assert(entered.drop_last() =~= stack);
            assert(follows(entered, root, show_all, patterns));
            assert(due(entered, root, show_all, patterns) == due_in(walker, root));
            lemma_advance_due(entered, root, show_all, patterns);
        },
    }
}

/// A walk prints exactly what is due, and ends with no frame left.
proof fn lemma_walk_due(walker: WalkerView, root: Tree, fuel: nat)
    requires
        names_distinct(root),
        walker.status == Status::Listing,
        follows(walker.stack, root, walker.show_all, walker.patterns),
        all_entered(walker.stack),
        fuel > due_in(walker, root).len(),
    ensures
        walk(walker, root, fuel) == (
            WalkerView {
                stack: Seq::empty(),
                status: if walker.stack.len() == 0 && root.children() is None {
                    Status::Failed
                } else {
                    Status::Done
                },
                ..walker
            },
            due_in(walker, root),
        ),
    decreases fuel,
{
    lemma_feed_due(walker, root);
    let fed = walker.feed(answer(root, pending_path(walker.stack)));
    let rest = walk(fed.0, root, (fuel - 1) as nat);
    assert(walk(walker, root, fuel) == (rest.0, fed.1 + rest.1));
    if fed.0.status == Status::Listing {
        assert(due_in(walker, root).len() == fed.1.len() + due_in(fed.0, root).len());
        lemma_walk_due(fed.0, root, (fuel - 1) as nat);
    } else {
        assert(rest == (fed.0, Seq::<Seq<char>>::empty()));
        assert(fed.1 + rest.1 =~= due_in(walker, root));
        assert(fed.0.stack =~= Seq::<FrameView>::empty());
    }
}

/// The state in which the walk over `root` ends.
pub open spec fn end_of_walk(root: Tree, show_all: bool, patterns: Seq<Seq<char>>) -> WalkerView {
    WalkerView {
        show_all,
        patterns,
        stack: Seq::empty(),
        status: if root.children() is Some {
            Status::Done
        } else {
            Status::Failed
        },
    }
}

/// A walker that starts at the root of a tree and gets every listing it
/// asks for from that tree prints the lines of the tree, each once and
/// in order, and then stops. The walk fails only if the root cannot be
/// listed; a directory further down that cannot be listed is passed
/// over. One listing more than the tree has lines is always enough.
pub proof fn lemma_walk_renders_tree(
    root: Tree,
    show_all: bool,
    patterns: Seq<Seq<char>>,
    fuel: nat,
)
    requires
        names_distinct(root),
        fuel > render_tree(root, show_all, patterns).len(),
    ensures
        walk(WalkerView::start(show_all, patterns), root, fuel) == (
            end_of_walk(root, show_all, patterns),
            render_tree(root, show_all, patterns),
        ),
{
    let start = WalkerView::start(show_all, patterns);
    assert(pending_path(start.stack) =~= Seq::<Seq<char>>::empty());
    assert(due_in(start, root) =~= render_tree(root, show_all, patterns));
    lemma_walk_due(start, root, fuel);
}

/// Walking the same tree twice prints the same lines and ends in the
/// same state.
pub proof fn lemma_walk_twice(
    root: Tree,
    show_all: bool,
    patterns: Seq<Seq<char>>,
    first: nat,
    second: nat,
)
    requires
        names_distinct(root),
        first > render_tree(root, show_all, patterns).len(),
        second > render_tree(root, show_all, patterns).len(),
    ensures
        walk(WalkerView::start(show_all, patterns), root, first) == walk(
            WalkerView::start(show_all, patterns),
            root,
            second,
        ),
{
    lemma_walk_renders_tree(root, show_all, patterns, first);
    lemma_walk_renders_tree(root, show_all, patterns, second);
}

} // verus!
