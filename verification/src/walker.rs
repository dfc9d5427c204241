//! The traversal as a state machine.
//!
//! A `Walker` never touches the file system. It asks for the listing of
//! one directory at a time; whoever drives it lists that directory and
//! feeds the result back, and gets the lines to print in return. A
//! directory that is not shown is never asked for.

use crate::entry::{filter_entries, kept_entries, DirEntry, EntryView};
use crate::render::{child_prefix, entry_line, extend_prefix, format_line};
use vstd::prelude::*;

verus! {

/// Where a walk stands.
#[derive(Clone, Copy, Debug, PartialEq, Eq, Structural)]
pub enum Status {
    /// The walker waits for the listing of a directory.
    Listing,
    /// Every shown entry has been printed.
    Done,
    /// The root directory could not be listed.
    Failed,
}

/// A directory whose entries are being printed.
struct Frame {
    prefix: String,
    entries: Vec<DirEntry>,
    next: usize,
}

/// The mathematical value of a `Frame`: the prefix of the directory's
/// entries, its shown entries, and how many of them have been printed.
pub struct FrameView {
    pub prefix: Seq<char>,
    pub entries: Seq<EntryView>,
    pub next: int,
}

impl FrameView {
    /// The same frame with one more entry printed.
    pub open spec fn step(self) -> FrameView {
        FrameView { next: self.next + 1, ..self }
    }

    /// Whether the entry printed last was the last one of the directory.
    pub open spec fn at_last(self) -> bool {
        self.next == self.entries.len()
    }

    /// Whether the count of printed entries lies within the entries.
    pub open spec fn in_range(self) -> bool {
        0 <= self.next <= self.entries.len()
    }

    /// Whether the entry printed last is a directory: the frame waits for
    /// what lies below that entry.
    pub open spec fn entered(self) -> bool {
        &&& 1 <= self.next <= self.entries.len()
        &&& self.entries[self.next - 1].is_dir
    }
}

/// Every frame but the innermost has entered a directory, and the
/// innermost is in range.
pub open spec fn entered_below_top(stack: Seq<FrameView>) -> bool {
    &&& forall|k: int| 0 <= k < stack.len() - 1 ==> (#[trigger] stack[k]).entered()
    &&& stack.len() > 0 ==> stack.last().in_range()
}

/// Every frame has entered a directory.
pub open spec fn all_entered(stack: Seq<FrameView>) -> bool {
    forall|k: int| 0 <= k < stack.len() ==> (#[trigger] stack[k]).entered()
}

impl DeepView for Frame {
    type V = FrameView;

    closed spec fn deep_view(&self) -> FrameView {
        FrameView {
            prefix: self.prefix@,
            entries: self.entries.deep_view(),
            next: self.next as int,
        }
    }
}

/// The state of a walk: the settings, and the directories that have been
/// entered and not left yet, outermost first.
pub struct WalkerView {
    pub show_all: bool,
    pub patterns: Seq<Seq<char>>,
    pub stack: Seq<FrameView>,
    pub status: Status,
}

/// The prefix for the entries of the directory that was entered last,
/// where `stack` holds the directories around it.
pub open spec fn pending_prefix(stack: Seq<FrameView>) -> Seq<char> {
    if stack.len() == 0 {
        Seq::empty()
    } else {
        child_prefix(stack.last().prefix, stack.last().at_last())
    }
}

/// The names that lead from the root to the directory that was entered
/// last: in each frame, the name of the entry printed last.
pub open spec fn pending_path(stack: Seq<FrameView>) -> Seq<Seq<char>> {
    Seq::new(stack.len(), |k: int| stack[k].entries[stack[k].next - 1].name)
}

/// The outcome of printing entries until a directory is entered or
/// nothing is left.
pub struct Advance {
    pub stack: Seq<FrameView>,
    pub lines: Seq<Seq<char>>,
}

/// The number of entries of the innermost frame that are not printed yet.
pub open spec fn top_left(stack: Seq<FrameView>) -> int {
    if stack.len() == 0 {
        0
    } else {
        stack.last().entries.len() - stack.last().next
    }
}

/// Prints the entries of the innermost directory one by one. A directory
/// entry stops the run right after its own line: its listing is needed
/// next. A directory that has no entry left is dropped, and the run goes
/// on in the one around it.
pub open spec fn advance(stack: Seq<FrameView>) -> Advance
    decreases stack.len(), top_left(stack),
{
    if stack.len() == 0 {
        Advance { stack, lines: Seq::empty() }
    } else {
        let top = stack.last();
        if 0 <= top.next < top.entries.len() {
            let entry = top.entries[top.next];
            let line = entry_line(top.prefix, entry.name, top.step().at_last());
            let moved = stack.drop_last().push(top.step());
            if entry.is_dir {
                Advance { stack: moved, lines: seq![line] }
            } else {
                let rest = advance(moved);
                Advance { stack: rest.stack, lines: seq![line] + rest.lines }
            }
        } else {
            advance(stack.drop_last())
        }
    }
}

impl WalkerView {
    /// The state before anything was listed: the walker waits for the
    /// listing of the root.
    pub open spec fn start(show_all: bool, patterns: Seq<Seq<char>>) -> WalkerView {
        WalkerView { show_all, patterns, stack: Seq::empty(), status: Status::Listing }
    }

    /// The frame for a directory that was just listed.
    pub open spec fn enter(self, entries: Seq<EntryView>) -> FrameView {
        FrameView {
            prefix: pending_prefix(self.stack),
            entries: kept_entries(entries, self.show_all, self.patterns),
            next: 0,
        }
    }

    /// The state after the listing of the awaited directory came in, and
    /// the lines to print. `None` stands for a directory that could not be
    /// listed: nothing is printed for it, and the walk goes on behind it.
    /// Only for the root it ends the walk.
    pub open spec fn feed(self, listing: Option<Seq<EntryView>>) -> (WalkerView, Seq<Seq<char>>) {
        if self.status != Status::Listing {
            (self, Seq::empty())
        } else if listing is None && self.stack.len() == 0 {
            (WalkerView { status: Status::Failed, ..self }, Seq::empty())
        } else {
            let entered = match listing {
                Some(entries) => self.stack.push(self.enter(entries)),
                None => self.stack,
            };
            let run = advance(entered);
            let status = if run.stack.len() == 0 {
                Status::Done
            } else {
                Status::Listing
            };
            (WalkerView { stack: run.stack, status, ..self }, run.lines)
        }
    }

    /// The path of the directory whose listing is awaited, if any.
    pub open spec fn request(self) -> Option<Seq<Seq<char>>> {
        if self.status == Status::Listing {
            Some(pending_path(self.stack))
        } else {
            None
        }
    }

    /// The state is one that a walk can be in: while it waits for a
    /// listing every frame has entered a directory, and once it has ended
    /// no frame is left.
    pub open spec fn wf(self) -> bool {
        &&& all_entered(self.stack)
        &&& self.status != Status::Listing ==> self.stack.len() == 0
    }
}

/// A walk over one directory tree.
pub struct Walker {
    show_all: bool,
    patterns: Vec<String>,
    stack: Vec<Frame>,
    status: Status,
}

impl View for Walker {
    type V = WalkerView;

    closed spec fn view(&self) -> WalkerView {
        WalkerView {
            show_all: self.show_all,
            patterns: self.patterns.deep_view(),
            stack: self.stack.deep_view(),
            status: self.status,
        }
    }
}

impl Walker {
    #[verifier::type_invariant]
    closed spec fn inv(self) -> bool {
        self@.wf()
    }

    /// A walk that shows every entry if `show_all` is set, and otherwise
    /// leaves out hidden entries and those that match `patterns`. It starts
    /// by asking for the listing of the root.
    pub fn new(show_all: bool, patterns: Vec<String>) -> (walker: Walker)
        ensures
            walker@ == WalkerView::start(show_all, patterns.deep_view()),
            walker@.wf(),
    {
        let stack: Vec<Frame> = Vec::new();
        assert(stack.deep_view() =~= Seq::<FrameView>::empty());
        Walker { show_all, patterns, stack, status: Status::Listing }
    }

    /// Where the walk stands.
    pub fn status(&self) -> (status: Status)
        ensures
            status == self@.status,
    {
        self.status
    }

    /// The directory whose listing the walker waits for, as the names
    /// that lead to it from the root; nothing once the walk has ended.
    /// The root itself is the empty path.
    pub fn request(&self) -> (path: Option<Vec<String>>)
        ensures
            path.deep_view() == self@.request(),
    {
        proof {
            use_type_invariant(self);
        }
        match self.status {
            Status::Listing => {},
            _ => {
                return None;
            },
        }
        let mut path: Vec<String> = Vec::new();
        let mut k: usize = 0;
        while k < self.stack.len()
            invariant
                self@.wf(),
                k <= self.stack@.len(),
                path.deep_view() == pending_path(self@.stack).take(k as int),
            decreases self.stack.len() - k,
        {
            let frame = &self.stack[k];
            let ghost before = path.deep_view();
            assert(self@.stack[k as int] == frame.deep_view());
            path.push(frame.entries[frame.next - 1].name.clone());
            assert(path.deep_view() =~= before.push(
                frame.deep_view().entries[frame.next - 1].name,
            ));
            k += 1;
        }
        Some(path)
    }

    /// Takes the listing of the directory that `request` names and
    /// returns the lines to print before the next listing is needed.
    /// `None` says that the directory could not be listed.
    pub fn feed(&mut self, listing: Option<Vec<DirEntry>>) -> (lines: Vec<String>)
        ensures
            (final(self)@, lines.deep_view()) == old(self)@.feed(listing.deep_view()),
            final(self)@.wf(),
    {
        proof {
            use_type_invariant(&*self);
        }
        let mut lines: Vec<String> = Vec::new();
        match self.status {
            Status::Listing => {},
            _ => {
                return lines;
            },
        }
        let ghost start = self@;
        let mut stack: Vec<Frame> = Vec::new();
        core::mem::swap(&mut self.stack, &mut stack);
        match listing {
            None => {
                if stack.len() == 0 {
                    self.status = Status::Failed;
                    assert(self.stack.deep_view() =~= start.stack);
                    return lines;
                }
            },
            Some(entries) => {
                let depth: usize = stack.len();
                let prefix = if depth == 0 {
                    String::new()
                } else {
                    let top = &stack[depth - 1];
                    extend_prefix(top.prefix.as_str(), top.next == top.entries.len())
                };
                let kept = filter_entries(entries, self.show_all, self.patterns.as_slice());
                stack.push(Frame { prefix, entries: kept, next: 0 });
                assert(stack.deep_view() =~= start.stack.push(start.enter(entries.deep_view())));
            },
        }
        proof {
            lemma_advance_entered(stack.deep_view());
        }
        run(&mut stack, &mut lines);
        if stack.len() == 0 {
            self.status = Status::Done;
            assert(self.stack.deep_view() =~= stack.deep_view());
        } else {
            self.stack = stack;
        }
        lines
    }
}

/// Prints entries until a directory is entered or nothing is left.
fn run(stack: &mut Vec<Frame>, lines: &mut Vec<String>)
    requires
        old(lines)@.len() == 0,
    ensures
        final(stack).deep_view() == advance(old(stack).deep_view()).stack,
        final(lines).deep_view() == advance(old(stack).deep_view()).lines,
{
    let ghost goal = advance(stack.deep_view());
    loop
        invariant
            goal == advance(old(stack).deep_view()),
            goal.stack == advance(stack.deep_view()).stack,
            goal.lines == lines.deep_view() + advance(stack.deep_view()).lines,
        decreases stack.len(),
    {
        let ghost around = stack.deep_view();
        match stack.pop() {
            None => {
                return;
            },
            Some(top) => {
                let mut top = top;
                let ghost below = stack.deep_view();
                assert(around =~= below.push(top.deep_view()));
                while top.next < top.entries.len()
                    invariant
                        goal == advance(old(stack).deep_view()),
                        below == stack.deep_view(),
                        goal.stack == advance(below.push(top.deep_view())).stack,
                        goal.lines == lines.deep_view() + advance(
                            below.push(top.deep_view()),
                        ).lines,
                    decreases top.entries.len() - top.next,
                {
                    let ghost frame = top.deep_view();
                    let is_last = top.next + 1 == top.entries.len();
                    let entry = &top.entries[top.next];
                    let is_dir = entry.is_dir;
                    let line = format_line(top.prefix.as_str(), entry.name.as_str(), is_last);
                    lines.push(line);
                    top.next += 1;
                    assert(below.push(frame).drop_last() =~= below);
                    if is_dir {
                        stack.push(top);
                        return;
                    }
                }
                assert(below.push(top.deep_view()).drop_last() =~= below);
            },
        }
    }
}

/// After a run every frame that is left has entered a directory.
pub proof fn lemma_advance_entered(stack: Seq<FrameView>)
    requires
        entered_below_top(stack),
    ensures
        all_entered(advance(stack).stack),
    decreases stack.len(), top_left(stack),
{
    if stack.len() > 0 {
        let top = stack.last();
        if 0 <= top.next < top.entries.len() {
            let moved = stack.drop_last().push(top.step());
            assert(entered_below_top(moved));
            if !top.entries[top.next].is_dir {
                lemma_advance_entered(moved);
            }
        } else {
            let around = stack.drop_last();
            assert(all_entered(around));
            lemma_advance_entered(around);
        }
    }
}

/// A run that does not end the walk stops right behind the line of a
/// directory: the last line printed is the line of the entry printed
/// last in the innermost frame, that entry is a directory, and it is the
/// one that the path of the next request ends in.
pub proof fn lemma_request_follows_line(stack: Seq<FrameView>)
    requires
        entered_below_top(stack),
        advance(stack).stack.len() > 0,
    ensures
        ({
            let run = advance(stack);
            let top = run.stack.last();
            let entry = top.entries[top.next - 1];
            &&& top.entered()
            &&& run.lines.len() > 0
            &&& run.lines.last() == entry_line(top.prefix, entry.name, top.at_last())
            &&& pending_path(run.stack).last() == entry.name
        }),
    decreases stack.len(), top_left(stack),
{
    if stack.len() > 0 {
        let top = stack.last();
        if 0 <= top.next < top.entries.len() {
            let moved = stack.drop_last().push(top.step());
            assert(entered_below_top(moved));
            if !top.entries[top.next].is_dir {
                lemma_request_follows_line(moved);
            }
        } else {
            let around = stack.drop_last();
            assert(all_entered(around));
            lemma_request_follows_line(around);
        }
    }
}

} // verus!
