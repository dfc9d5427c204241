//! The shape of the printed tree: the line of an entry, the prefix that
//! is handed down to the children of a directory, and the lines that a
//! whole directory tree gives.

use crate::entry::is_hidden;
use crate::ignore::is_ignored;
use crate::tree::{kept_trees, lemma_kept_is_child, tree_is_kept, Tree};
use vstd::prelude::*;

verus! {

/// The glyph in front of an entry: a corner for the last entry of its
/// directory, a tee for every other.
pub open spec fn branch_glyph(is_last: bool) -> Seq<char> {
    if is_last {
        seq!['└', '─', '─', ' ']
    } else {
        seq!['├', '─', '─', ' ']
    }
}

/// What the children of an entry get added to their prefix: blanks below
/// a last entry, a bar below every other.
pub open spec fn filler(is_last: bool) -> Seq<char> {
    if is_last {
        seq![' ', ' ', ' ', ' ']
    } else {
        seq!['│', ' ', ' ']
    }
}

/// The line of the entry `name`: prefix, glyph, one blank, name.
pub open spec fn entry_line(prefix: Seq<char>, name: Seq<char>, is_last: bool) -> Seq<char> {
    prefix + branch_glyph(is_last) + seq![' '] + name
}

/// The prefix for the children of an entry that was printed with `prefix`.
pub open spec fn child_prefix(prefix: Seq<char>, is_last: bool) -> Seq<char> {
    prefix + filler(is_last)
}

/// The line for the entry `name` below a directory printed with `prefix`.
pub fn format_line(prefix: &str, name: &str, is_last: bool) -> (line: String)
    ensures
        line@ == entry_line(prefix@, name@, is_last),
{
    let glyph = if is_last {
        "└── "
    } else {
        "├── "
    };
    proof {
        reveal_strlit("└── ");
        reveal_strlit("├── ");
        reveal_strlit(" ");
        assert(glyph@ =~= branch_glyph(is_last));
        assert(" "@ =~= seq![' ']);
    }
    let mut line = String::from_str(prefix);
    line.append(glyph);
    line.append(" ");
    line.append(name);
    line
}

/// The prefix for the children of an entry printed with `prefix`.
pub fn extend_prefix(prefix: &str, is_last: bool) -> (extended: String)
    ensures
        extended@ == child_prefix(prefix@, is_last),
{
    let fill = if is_last {
        "    "
    } else {
        "│  "
    };
    proof {
        reveal_strlit("    ");
        reveal_strlit("│  ");
        assert(fill@ =~= filler(is_last));
    }
    let mut extended = String::from_str(prefix);
    extended.append(fill);
    extended
}

/// The lines of one directory from its `i`-th shown entry on, and of all
/// that lies below those entries. `children` is the listing of the
/// directory and `prefix` the prefix of its entries.
pub open spec fn render_from(
    children: Seq<Tree>,
    i: int,
    prefix: Seq<char>,
    show_all: bool,
    patterns: Seq<Seq<char>>,
) -> Seq<Seq<char>>
    decreases children, kept_trees(children, show_all, patterns).len() - i,
    via render_from_decreases
{
    let kept = kept_trees(children, show_all, patterns);
    if 0 <= i < kept.len() {
        let is_last = i == kept.len() - 1;
        let below = match kept[i].children() {
            Some(listing) => render_from(
                listing,
                0,
                child_prefix(prefix, is_last),
                show_all,
                patterns,
            ),
            None => Seq::empty(),
        };
        seq![entry_line(prefix, kept[i].name, is_last)] + below + render_from(
            children,
            i + 1,
            prefix,
            show_all,
            patterns,
        )
    } else {
        Seq::empty()
    }
}

#[via_fn]
proof fn render_from_decreases(
    children: Seq<Tree>,
    i: int,
    prefix: Seq<char>,
    show_all: bool,
    patterns: Seq<Seq<char>>,
) {
    let kept = kept_trees(children, show_all, patterns);
    if 0 <= i < kept.len() {
        assert(kept.contains(kept[i]));
        children.lemma_filter_contains_rev(tree_is_kept(show_all, patterns), kept[i]);
        let k: int = choose|k: int| 0 <= k < children.len() && children[k] == kept[i];
        assert(decreases_to!(children => children[k]));
    }
}

/// The lines of all that lies below `node`, where `prefix` is the prefix
/// of its children. Below a file, and below a directory that cannot be
/// listed, there is nothing.
pub open spec fn render_below(
    node: Tree,
    prefix: Seq<char>,
    show_all: bool,
    patterns: Seq<Seq<char>>,
) -> Seq<Seq<char>> {
    match node.children() {
        Some(listing) => render_from(listing, 0, prefix, show_all, patterns),
        None => Seq::empty(),
    }
}

/// The lines of the tree below `root`. The line of the root itself is
/// not among them.
pub open spec fn render_tree(root: Tree, show_all: bool, patterns: Seq<Seq<char>>) -> Seq<
    Seq<char>,
> {
    render_below(root, Seq::empty(), show_all, patterns)
}

/// Whether `line` is the line of an entry of the directory whose
/// entries are printed with `prefix`: right behind the prefix stands a
/// corner or a tee.
pub open spec fn at_level(line: Seq<char>, prefix: Seq<char>) -> bool {
    &&& prefix.is_prefix_of(line)
    &&& line.len() > prefix.len()
    &&& (line[prefix.len() as int] == '└' || line[prefix.len() as int] == '├')
}

/// The test `at_level` for a fixed prefix.
pub open spec fn level_of(prefix: Seq<char>) -> spec_fn(Seq<char>) -> bool {
    |line: Seq<char>| at_level(line, prefix)
}

/// The lines of the shown entries of one directory themselves, without
/// what lies below them: one line for each, in order, the last with the
/// corner and every other with the tee.
pub open spec fn level_lines(
    children: Seq<Tree>,
    prefix: Seq<char>,
    show_all: bool,
    patterns: Seq<Seq<char>>,
) -> Seq<Seq<char>> {
    let kept = kept_trees(children, show_all, patterns);
    Seq::new(kept.len(), |i: int| entry_line(prefix, kept[i].name, i == kept.len() - 1))
}

/// The lines from the `i`-th shown entry on are the line of that entry,
/// then the lines below it, then the lines from the next entry on.
pub proof fn lemma_render_from_unfold(
    children: Seq<Tree>,
    i: int,
    prefix: Seq<char>,
    show_all: bool,
    patterns: Seq<Seq<char>>,
)
    requires
        0 <= i < kept_trees(children, show_all, patterns).len(),
    ensures
        render_from(children, i, prefix, show_all, patterns) == {
            let kept = kept_trees(children, show_all, patterns);
            let is_last = i == kept.len() - 1;
            seq![entry_line(prefix, kept[i].name, is_last)] + render_below(
                kept[i],
                child_prefix(prefix, is_last),
                show_all,
                patterns,
            ) + render_from(children, i + 1, prefix, show_all, patterns)
        },
{
}

/// Every line of a directory begins with the prefix of that directory.
pub proof fn lemma_lines_carry_prefix(
    children: Seq<Tree>,
    i: int,
    prefix: Seq<char>,
    show_all: bool,
    patterns: Seq<Seq<char>>,
)
    ensures
        forall|k: int|
            0 <= k < render_from(children, i, prefix, show_all, patterns).len()
                ==> prefix.is_prefix_of(
                #[trigger] render_from(children, i, prefix, show_all, patterns)[k],
            ),
    decreases children, kept_trees(children, show_all, patterns).len() - i,
{
    let kept = kept_trees(children, show_all, patterns);
    let lines = render_from(children, i, prefix, show_all, patterns);
    if 0 <= i < kept.len() {
        let is_last = i == kept.len() - 1;
        let inner = child_prefix(prefix, is_last);
        let line = entry_line(prefix, kept[i].name, is_last);
        let below = render_below(kept[i], inner, show_all, patterns);
        let after = render_from(children, i + 1, prefix, show_all, patterns);
        lemma_render_from_unfold(children, i, prefix, show_all, patterns);
        match kept[i].children() {
            Some(listing) => {
                assert(kept.contains(kept[i]));
                children.lemma_filter_contains_rev(tree_is_kept(show_all, patterns), kept[i]);
                let at: int = choose|at: int|
                    0 <= at < children.len() && children[at] == kept[i];
                assert(decreases_to!(children => children[at]));
                lemma_lines_carry_prefix(listing, 0, inner, show_all, patterns);
            },
            None => {},
        }
        lemma_lines_carry_prefix(children, i + 1, prefix, show_all, patterns);
        assert forall|k: int| 0 <= k < lines.len() implies prefix.is_prefix_of(
            #[trigger] lines[k],
        ) by {
            if k == 0 {
                assert(lines[k] == line);
            } else if k < 1 + below.len() {
                assert(lines[k] == below[k - 1]);
                assert(inner.is_prefix_of(below[k - 1]));
            } else {
                assert(lines[k] == after[k - 1 - below.len()]);
            }
        }
    }
}

/// The line of an entry is a line of the level of its directory.
proof fn lemma_entry_line_at_level(prefix: Seq<char>, name: Seq<char>, is_last: bool)
    ensures
        at_level(entry_line(prefix, name, is_last), prefix),
{
    let line = entry_line(prefix, name, is_last);
    assert(line.len() == prefix.len() + 5 + name.len());
    assert(line[prefix.len() as int] == branch_glyph(is_last)[0]);
    assert(line.subrange(0, prefix.len() as int) =~= prefix);
}

/// A line that begins with the prefix of the children of an entry is no
/// line of the level of the entry itself.
proof fn lemma_deeper_line(prefix: Seq<char>, is_last: bool, line: Seq<char>)
    requires
        child_prefix(prefix, is_last).is_prefix_of(line),
    ensures
        !at_level(line, prefix),
{
    let inner = child_prefix(prefix, is_last);
    assert(line.subrange(0, inner.len() as int)[prefix.len() as int] == line[prefix.len() as int]);
    assert(inner[prefix.len() as int] == filler(is_last)[0]);
}

/// No line below an entry looks like a line of the entry's own level.
proof fn lemma_below_is_deeper(
    node: Tree,
    prefix: Seq<char>,
    is_last: bool,
    show_all: bool,
    patterns: Seq<Seq<char>>,
)
    ensures
        render_below(node, child_prefix(prefix, is_last), show_all, patterns).filter(
            level_of(prefix),
        ) == Seq::<Seq<char>>::empty(),
{
    let inner = child_prefix(prefix, is_last);
    let below = render_below(node, inner, show_all, patterns);
    let level = level_of(prefix);
    match node.children() {
        Some(listing) => {
            lemma_lines_carry_prefix(listing, 0, inner, show_all, patterns);
        },
        None => {},
    }
    assert forall|k: int| 0 <= k < below.len() implies !level(#[trigger] below[k]) by {
        lemma_deeper_line(prefix, is_last, below[k]);
    }
    assert(below.all(|line: Seq<char>| !level(line)));
    below.lemma_all_neg_filter_empty(level);
}

/// What a test keeps of a single value.
proof fn lemma_filter_one(line: Seq<char>, keep: spec_fn(Seq<char>) -> bool)
    requires
        keep(line),
    ensures
        seq![line].filter(keep) == seq![line],
{
    reveal_with_fuel(Seq::filter, 2);
    assert(seq![line].drop_last() =~= Seq::<Seq<char>>::empty());
    assert(seq![line].last() == line);
    assert(Seq::<Seq<char>>::empty().push(line) =~= seq![line]);
}

/// The lines at the level of a directory's entries, from the `i`-th
/// shown entry on.
proof fn lemma_level_lines_from(
    children: Seq<Tree>,
    i: int,
    prefix: Seq<char>,
    show_all: bool,
    patterns: Seq<Seq<char>>,
)
    requires
        0 <= i <= kept_trees(children, show_all, patterns).len(),
    ensures
        render_from(children, i, prefix, show_all, patterns).filter(level_of(prefix))
            == level_lines(children, prefix, show_all, patterns).skip(i),
    decreases kept_trees(children, show_all, patterns).len() - i,
{
    let kept = kept_trees(children, show_all, patterns);
    let level = level_of(prefix);
    let all = level_lines(children, prefix, show_all, patterns);
    let lines = render_from(children, i, prefix, show_all, patterns);
    if i < kept.len() {
        let is_last = i == kept.len() - 1;
        let line = seq![entry_line(prefix, kept[i].name, is_last)];
        let below = render_below(kept[i], child_prefix(prefix, is_last), show_all, patterns);
        let after = render_from(children, i + 1, prefix, show_all, patterns);
        assert(lines == line + below + after) by {
            lemma_render_from_unfold(children, i, prefix, show_all, patterns);
        }
        assert(line.filter(level) == line) by {
            lemma_entry_line_at_level(prefix, kept[i].name, is_last);
            lemma_filter_one(entry_line(prefix, kept[i].name, is_last), level);
        }
        assert(below.filter(level) == Seq::<Seq<char>>::empty()) by {
            lemma_below_is_deeper(kept[i], prefix, is_last, show_all, patterns);
        }
        assert(after.filter(level) == all.skip(i + 1)) by {
            lemma_level_lines_from(children, i + 1, prefix, show_all, patterns);
        }
        assert(lines.filter(level) == line.filter(level) + below.filter(level) + after.filter(
            level,
        )) by {
            Seq::filter_distributes_over_add(line, below, level);
            Seq::filter_distributes_over_add(line + below, after, level);
        }
        assert(all.skip(i) =~= line + Seq::<Seq<char>>::empty() + all.skip(i + 1));
    } else {
        assert(lines.filter(level) == Seq::<Seq<char>>::empty()) by {
            reveal(Seq::filter);
        }
        assert(all.skip(i) =~= Seq::<Seq<char>>::empty());
    }
}

/// A directory with N shown entries gives exactly N lines at its own
/// level: the lines of those entries, in order, the last of them with
/// the corner and every other with the tee. All its other lines lie
/// deeper.
pub proof fn lemma_level_lines(
    children: Seq<Tree>,
    prefix: Seq<char>,
    show_all: bool,
    patterns: Seq<Seq<char>>,
)
    ensures
        render_from(children, 0, prefix, show_all, patterns).filter(level_of(prefix))
            == level_lines(children, prefix, show_all, patterns),
        level_lines(children, prefix, show_all, patterns).len() == kept_trees(
            children,
            show_all,
            patterns,
        ).len(),
{
    lemma_level_lines_from(children, 0, prefix, show_all, patterns);
    let all = level_lines(children, prefix, show_all, patterns);
    assert(all.skip(0) =~= all);
}

/// What is printed from the `i`-th shown entry on is printed from every
/// earlier entry on as well.
proof fn lemma_printed_from(
    children: Seq<Tree>,
    from: int,
    i: int,
    prefix: Seq<char>,
    show_all: bool,
    patterns: Seq<Seq<char>>,
    line: Seq<char>,
)
    requires
        0 <= from <= i,
        render_from(children, i, prefix, show_all, patterns).contains(line),
    ensures
        render_from(children, from, prefix, show_all, patterns).contains(line),
    decreases i - from,
{
    if from < i {
        let kept = kept_trees(children, show_all, patterns);
        lemma_printed_from(children, from + 1, i, prefix, show_all, patterns, line);
        let after = render_from(children, from + 1, prefix, show_all, patterns);
        let lines = render_from(children, from, prefix, show_all, patterns);
        let at: int = choose|at: int| 0 <= at < after.len() && after[at] == line;
        assert(from < kept.len());
        lemma_render_from_unfold(children, from, prefix, show_all, patterns);
        assert(lines[lines.len() - after.len() + at] == line);
    }
}

/// Every shown entry of a directory has its line among the lines of the
/// directory.
pub proof fn lemma_entry_printed(
    children: Seq<Tree>,
    i: int,
    prefix: Seq<char>,
    show_all: bool,
    patterns: Seq<Seq<char>>,
)
    requires
        0 <= i < kept_trees(children, show_all, patterns).len(),
    ensures
        render_from(children, 0, prefix, show_all, patterns).contains(
            entry_line(
                prefix,
                kept_trees(children, show_all, patterns)[i].name,
                i == kept_trees(children, show_all, patterns).len() - 1,
            ),
        ),
{
    let kept = kept_trees(children, show_all, patterns);
    let line = entry_line(prefix, kept[i].name, i == kept.len() - 1);
    lemma_render_from_unfold(children, i, prefix, show_all, patterns);
    assert(render_from(children, i, prefix, show_all, patterns)[0] == line);
    lemma_printed_from(children, 0, i, prefix, show_all, patterns, line);
}

/// The lines below a shown entry are among the lines of the directory.
pub proof fn lemma_below_printed(
    children: Seq<Tree>,
    i: int,
    prefix: Seq<char>,
    show_all: bool,
    patterns: Seq<Seq<char>>,
    line: Seq<char>,
)
    requires
        0 <= i < kept_trees(children, show_all, patterns).len(),
        render_below(
            kept_trees(children, show_all, patterns)[i],
            child_prefix(prefix, i == kept_trees(children, show_all, patterns).len() - 1),
            show_all,
            patterns,
        ).contains(line),
    ensures
        render_from(children, 0, prefix, show_all, patterns).contains(line),
{
    let kept = kept_trees(children, show_all, patterns);
    let below = render_below(
        kept[i],
        child_prefix(prefix, i == kept.len() - 1),
        show_all,
        patterns,
    );
    let at: int = choose|at: int| 0 <= at < below.len() && below[at] == line;
    lemma_render_from_unfold(children, i, prefix, show_all, patterns);
    assert(render_from(children, i, prefix, show_all, patterns)[1 + at] == line);
    lemma_printed_from(children, 0, i, prefix, show_all, patterns, line);
}

/// The entries of a directory that is a shown entry itself are printed
/// with the prefix of the directory around it and, behind that, four
/// blanks if the directory is the last entry there, and a bar and two
/// blanks if it is not; then come the glyph, a blank and the name.
pub proof fn lemma_grandchild_line(
    children: Seq<Tree>,
    i: int,
    j: int,
    prefix: Seq<char>,
    show_all: bool,
    patterns: Seq<Seq<char>>,
)
    requires
        0 <= i < kept_trees(children, show_all, patterns).len(),
        kept_trees(children, show_all, patterns)[i].children() is Some,
        0 <= j < kept_trees(
            kept_trees(children, show_all, patterns)[i].children()->0,
            show_all,
            patterns,
        ).len(),
    ensures
        ({
            let kept = kept_trees(children, show_all, patterns);
            let inner = kept_trees(kept[i].children()->0, show_all, patterns);
            render_from(children, 0, prefix, show_all, patterns).contains(
                prefix + filler(i == kept.len() - 1) + branch_glyph(j == inner.len() - 1)
                    + seq![' '] + inner[j].name,
            )
        }),
{
    let kept = kept_trees(children, show_all, patterns);
    let listing = kept[i].children()->0;
    let deeper = child_prefix(prefix, i == kept.len() - 1);
    lemma_entry_printed(listing, j, deeper, show_all, patterns);
    let inner = kept_trees(listing, show_all, patterns);
    let line = entry_line(deeper, inner[j].name, j == inner.len() - 1);
    lemma_below_printed(children, i, prefix, show_all, patterns, line);
}

/// When everything is shown, every child is a shown entry.
pub proof fn lemma_show_all_keeps_children(children: Seq<Tree>, patterns: Seq<Seq<char>>)
    ensures
        kept_trees(children, true, patterns) == children,
    decreases children.len(),
{
    reveal(Seq::filter);
    if children.len() > 0 {
        lemma_show_all_keeps_children(children.drop_last(), patterns);
        assert(children.drop_last().push(children.last()) =~= children);
    }
}

/// A child that is hidden or ignored is none of the entries that get a
/// line in the default mode. When everything is shown it has its line,
/// at its place in the listing.
pub proof fn lemma_filtered_child(
    children: Seq<Tree>,
    i: int,
    prefix: Seq<char>,
    patterns: Seq<Seq<char>>,
)
    requires
        0 <= i < children.len(),
        is_hidden(children[i].name) || is_ignored(children[i].name, patterns),
    ensures
        !kept_trees(children, false, patterns).contains(children[i]),
        kept_trees(children, true, patterns)[i] == children[i],
        render_from(children, 0, prefix, true, patterns).contains(
            entry_line(prefix, children[i].name, i == children.len() - 1),
        ),
{
    let shown = kept_trees(children, false, patterns);
    if shown.contains(children[i]) {
        let at: int = choose|at: int| 0 <= at < shown.len() && shown[at] == children[i];
        lemma_kept_is_child(children, false, patterns, at);
    }
    lemma_show_all_keeps_children(children, patterns);
    lemma_entry_printed(children, i, prefix, true, patterns);
}

} // verus!
