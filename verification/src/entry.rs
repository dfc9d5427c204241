//! Directory entries and the rule that decides which of them are shown.

use crate::ignore::{is_ignored, matches_gitignore, strip_trailing_slashes};
use vstd::prelude::*;

verus! {

/// One child of a directory, as a listing reports it.
#[derive(Debug, PartialEq, Eq)]
pub struct DirEntry {
    /// The bare name of the entry, without the path that leads to it.
    pub name: String,
    /// Whether the entry is a directory.
    pub is_dir: bool,
}

/// The mathematical value of a `DirEntry`.
pub struct EntryView {
    pub name: Seq<char>,
    pub is_dir: bool,
}

impl DeepView for DirEntry {
    type V = EntryView;

    open spec fn deep_view(&self) -> EntryView {
        EntryView { name: self.name@, is_dir: self.is_dir }
    }
}

/// A name is hidden when it starts with a dot.
pub open spec fn is_hidden(name: Seq<char>) -> bool {
    name.len() > 0 && name.first() == '.'
}

/// Whether an entry called `name` is shown: always when `show_all` is
/// set, otherwise only if it is neither hidden nor ignored.
pub open spec fn is_kept(name: Seq<char>, show_all: bool, patterns: Seq<Seq<char>>) -> bool {
    show_all || (!is_hidden(name) && !is_ignored(name, patterns))
}

/// The test that tells the entries that are shown from the others.
pub open spec fn entry_is_kept(show_all: bool, patterns: Seq<Seq<char>>) -> spec_fn(
    EntryView,
) -> bool {
    |entry: EntryView| is_kept(entry.name, show_all, patterns)
}

/// The entries of `entries` that are shown, in the order of the listing.
pub open spec fn kept_entries(
    entries: Seq<EntryView>,
    show_all: bool,
    patterns: Seq<Seq<char>>,
) -> Seq<EntryView> {
    entries.filter(entry_is_kept(show_all, patterns))
}

/// Whether `name` starts with a dot.
pub fn is_hidden_name(name: &str) -> (hidden: bool)
    ensures
        hidden == is_hidden(name@),
{
    !name.is_empty() && name.get_char(0) == '.'
}

/// Whether the entry called `name` is shown.
pub fn keep_entry(name: &str, show_all: bool, patterns: &[String]) -> (kept: bool)
    ensures
        kept == is_kept(name@, show_all, patterns.deep_view()),
        show_all ==> kept,
        !show_all && is_hidden(name@) ==> !kept,
        !show_all && is_ignored(name@, patterns.deep_view()) ==> !kept,
{
    show_all || (!is_hidden_name(name) && !matches_gitignore(name, patterns))
}

/// Drops from a listing the entries that are not shown. The relative
/// order of the others is unchanged.
pub fn filter_entries(entries: Vec<DirEntry>, show_all: bool, patterns: &[String]) -> (kept: Vec<
    DirEntry,
>)
    ensures
        kept.deep_view() == kept_entries(entries.deep_view(), show_all, patterns.deep_view()),
{
    let ghost all = entries.deep_view();
    let ghost test = entry_is_kept(show_all, patterns.deep_view());
    let mut kept: Vec<DirEntry> = Vec::new();
    proof {
        reveal(Seq::filter);
    }
    for entry in it: entries
        invariant
            all == entries.deep_view(),
            it.seq() == entries@,
            test == entry_is_kept(show_all, patterns.deep_view()),
            kept.deep_view() == all.take(it.index() as int).filter(test),
    {
        proof {
            let i: int = it.index() as int;
            reveal(Seq::filter);
            assert(all.take(i + 1).drop_last() =~= all.take(i));
        }
        if keep_entry(entry.name.as_str(), show_all, patterns) {
            kept.push(entry);
        }
    }
    assert(all.take(all.len() as int) =~= all);
    kept
}

/// An entry is among the shown entries of a listing exactly if it is in
/// the listing and is one that is shown.
pub proof fn lemma_kept_entries_contains(
    entries: Seq<EntryView>,
    show_all: bool,
    patterns: Seq<Seq<char>>,
    entry: EntryView,
)
    ensures
        kept_entries(entries, show_all, patterns).contains(entry) <==> entries.contains(entry)
            && is_kept(entry.name, show_all, patterns),
{
    let pred = entry_is_kept(show_all, patterns);
    let kept = kept_entries(entries, show_all, patterns);
    if kept.contains(entry) {
        let i: int = choose|i: int| 0 <= i < kept.len() && kept[i] == entry;
        entries.lemma_filter_contains_rev(pred, entry);
        entries.lemma_filter_pred(pred, i);
    }
    if entries.contains(entry) && is_kept(entry.name, show_all, patterns) {
        let i: int = choose|i: int| 0 <= i < entries.len() && entries[i] == entry;
        entries.lemma_filter_contains(pred, i);
    }
}

/// A hidden entry of a listing is not shown in the default mode, and is
/// shown when everything is.
pub proof fn lemma_hidden_entry(
    entries: Seq<EntryView>,
    patterns: Seq<Seq<char>>,
    entry: EntryView,
)
    requires
        entries.contains(entry),
        is_hidden(entry.name),
    ensures
        !kept_entries(entries, false, patterns).contains(entry),
        kept_entries(entries, true, patterns).contains(entry),
{
    lemma_kept_entries_contains(entries, false, patterns, entry);
    lemma_kept_entries_contains(entries, true, patterns, entry);
}

/// An entry whose name begins with one of the patterns, the trailing
/// slashes of the pattern apart, is not shown in the default mode, and
/// is shown when everything is.
pub proof fn lemma_ignored_entry(
    entries: Seq<EntryView>,
    patterns: Seq<Seq<char>>,
    entry: EntryView,
    k: int,
)
    requires
        entries.contains(entry),
        0 <= k < patterns.len(),
        strip_trailing_slashes(patterns[k]).is_prefix_of(entry.name),
    ensures
        !kept_entries(entries, false, patterns).contains(entry),
        kept_entries(entries, true, patterns).contains(entry),
{
    lemma_kept_entries_contains(entries, false, patterns, entry);
    lemma_kept_entries_contains(entries, true, patterns, entry);
}

/// When everything is shown, a listing is left as it is.
pub proof fn lemma_show_all_keeps_all(entries: Seq<EntryView>, patterns: Seq<Seq<char>>)
    ensures
        kept_entries(entries, true, patterns) == entries,
    decreases entries.len(),
{
    reveal(Seq::filter);
    if entries.len() > 0 {
        lemma_show_all_keeps_all(entries.drop_last(), patterns);
    }
}

} // verus!
