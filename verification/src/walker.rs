//! The traversal itself: it decides what is reported next and which directory must be listed,
//! and leaves the listing to its caller.

use vstd::prelude::*;
use crate::args::Args;
use crate::listing::{
    entry_views, is_shown, listing_view, visible, visible_entries, Entry, EntryKind, EntryView,
};
use crate::name::is_hidden;
use crate::record::{footer_text, name_views, record_views, render_footer, Record, RecordView};

verus! {

/// What a traversal shows and how deep it goes.
pub struct Policy {
    pub limit: nat,
    pub dirs_only: bool,
    pub include_hidden: bool,
}

/// A directory that the traversal is in: its siblings as they are walked, and how many are done.
pub struct FrameView {
    pub entries: Seq<EntryView>,
    pub next: nat,
}

/// A traversal as the contracts see it.
pub struct WalkerView {
    pub policy: Policy,
    /// The directories from the root down to the one that is being walked.
    pub stack: Seq<FrameView>,
    /// Whether the traversal waits for a listing.
    pub waiting: bool,
    /// All that was reported so far.
    pub transcript: Seq<RecordView>,
}

/// The record of the entry at `index` among its siblings, at `depth`.
pub open spec fn visit_of(entries: Seq<EntryView>, index: int, depth: nat) -> RecordView {
    RecordView::Visit {
        depth,
        last: index == entries.len() - 1,
        name: entries[index].name,
        directory: entries[index].kind == EntryKind::Directory,
    }
}

/// A record keeps to the policy when it is no visit, or the visit of an entry that lies
/// above the depth limit and not above `floor`, that is not hidden unless hidden entries
/// are shown, and that is a directory where only directories are shown.
pub open spec fn keeps_to(policy: Policy, floor: nat, record: RecordView) -> bool {
    match record {
        RecordView::Visit { depth, last, name, directory } => {
            &&& floor <= depth < policy.limit
            &&& !policy.include_hidden ==> !is_hidden(name)
            &&& policy.dirs_only ==> directory
        },
        _ => true,
    }
}

/// Every record keeps to the policy.
pub open spec fn all_keep_to(policy: Policy, floor: nat, records: Seq<RecordView>) -> bool {
    forall|i: int| 0 <= i < records.len() ==> keeps_to(policy, floor, #[trigger] records[i])
}

/// Every entry is one that the policy shows.
pub open spec fn all_shown(entries: Seq<EntryView>, include_hidden: bool) -> bool {
    forall|i: int| 0 <= i < entries.len() ==> is_shown(#[trigger] entries[i], include_hidden)
}

/// How many records count as a directory: the root and every directory visited.
pub open spec fn directories(records: Seq<RecordView>) -> nat
    decreases records.len(),
{
    if records.len() == 0 {
        0
    } else {
        directories(records.drop_last()) + match records.last() {
            RecordView::Root => 1nat,
            RecordView::Visit { depth, last, name, directory } => if directory {
                1nat
            } else {
                0nat
            },
            _ => 0nat,
        }
    }
}

/// How many records count as a file: every visit of something that is no directory.
pub open spec fn files(records: Seq<RecordView>) -> nat
    decreases records.len(),
{
    if records.len() == 0 {
        0
    } else {
        files(records.drop_last()) + match records.last() {
            RecordView::Visit { depth, last, name, directory } => if directory {
                0nat
            } else {
                1nat
            },
            _ => 0nat,
        }
    }
}

/// The frame has taken an entry, and the last one that it took is a directory.
pub open spec fn descended(frame: FrameView) -> bool {
    1 <= frame.next && frame.entries[frame.next - 1].kind == EntryKind::Directory
}

/// How many moves the frames still allow: one for each entry not yet taken, one to leave each frame.
pub open spec fn work(stack: Seq<FrameView>) -> nat
    decreases stack.len(),
{
    if stack.len() == 0 {
        0
    } else {
        let top = stack.last();
        let left: nat = if top.next < top.entries.len() {
            (top.entries.len() - top.next) as nat
        } else {
            0
        };
        work(stack.drop_last()) + left + 1
    }
}

impl WalkerView {
    /// The names that lead from the root to the directory that is listed next.
    pub open spec fn path(self) -> Seq<Seq<char>> {
        Seq::new(self.stack.len(), |k: int| self.stack[k].entries[self.stack[k].next - 1].name)
    }

    /// A traversal is done when it waits for nothing.
    pub open spec fn finished(self) -> bool {
        !self.waiting
    }

    /// What holds of a traversal at every move: no frame lies at the depth limit or below it,
    /// every frame holds entries that the policy shows and, but for the top one, has taken
    /// the directory that leads to the frame above it; the transcript opens with the root,
    /// and every record in it keeps to the policy.
    pub open spec fn sound(self) -> bool {
        &&& self.stack.len() <= self.policy.limit
        &&& forall|k: int|
            0 <= k < self.stack.len() ==> (#[trigger] self.stack[k]).next
                <= self.stack[k].entries.len()
        &&& forall|k: int| 0 <= k < self.stack.len() - 1 ==> descended(#[trigger] self.stack[k])
        &&& forall|k: int|
            0 <= k < self.stack.len() ==> all_shown(
                (#[trigger] self.stack[k]).entries,
                self.policy.include_hidden,
            )
        &&& self.transcript.len() > 0
        &&& self.transcript[0] == RecordView::Root
        &&& all_keep_to(self.policy, 0, self.transcript)
    }

    /// What holds of a traversal that waits: the directory that it asks for lies above the
    /// depth limit, and the top frame has taken the directory that leads to it.
    pub open spec fn poised(self) -> bool {
        self.waiting ==> {
            &&& self.stack.len() < self.policy.limit
            &&& self.stack.len() > 0 ==> descended(self.stack.last())
        }
    }

    /// What holds of every traversal between two moves of its caller: it waits for a
    /// listing, or it has left the root.
    pub open spec fn wf(self) -> bool {
        &&& self.sound()
        &&& self.poised()
        &&& !self.waiting ==> self.stack.len() == 0
    }

    /// The traversal with the answer to its request taken in, before it moves on.
    pub open spec fn answered(self, listing: Option<Seq<EntryView>>) -> WalkerView {
        match listing {
            None => WalkerView {
                waiting: false,
                transcript: self.transcript.push(RecordView::Unreadable { path: self.path() }),
                ..self
            },
            Some(raw) => WalkerView {
                waiting: false,
                stack: self.stack.push(
                    FrameView { entries: visible(raw, self.policy.include_hidden), next: 0 },
                ),
                ..self
            },
        }
    }

    /// One move: leave the top frame if it is done, else take its next entry.
    pub open spec fn stepped(self) -> WalkerView {
        let top = self.stack.last();
        let below = self.stack.drop_last();
        if top.next >= top.entries.len() {
            WalkerView { stack: below, ..self }
        } else {
            let index = top.next as int;
            let depth = below.len();
            let stack = below.push(FrameView { next: top.next + 1, ..top });
            let visit = visit_of(top.entries, index, depth);
            match top.entries[index].kind {
                EntryKind::Unknown => WalkerView {
                    stack,
                    transcript: self.transcript.push(
                        RecordView::Untyped { name: top.entries[index].name },
                    ),
                    ..self
                },
                EntryKind::File => if self.policy.dirs_only {
                    WalkerView { stack, ..self }
                } else {
                    WalkerView { stack, transcript: self.transcript.push(visit), ..self }
                },
                EntryKind::Directory => WalkerView {
                    stack,
                    waiting: stack.len() < self.policy.limit,
                    transcript: self.transcript.push(visit),
                    ..self
                },
            }
        }
    }

    /// The traversal moved on until it waits for a listing or has left the root.
    pub open spec fn advanced(self) -> WalkerView
        decreases work(self.stack),
    {
        if self.waiting || self.stack.len() == 0 {
            self
        } else {
            proof {
                lemma_step_reduces_work(self);
            }
            self.stepped().advanced()
        }
    }

    /// The traversal after its request was answered with `listing`.
    pub open spec fn resumed(self, listing: Option<Seq<EntryView>>) -> WalkerView {
        if self.waiting {
            self.answered(listing).advanced()
        } else {
            self
        }
    }
}

/// A directory that the traversal is in.
struct Frame {
    entries: Vec<Entry>,
    next: usize,
}

impl View for Frame {
    type V = FrameView;

    closed spec fn view(&self) -> FrameView {
        FrameView { entries: entry_views(self.entries@), next: self.next as nat }
    }
}

/// The frames of a traversal as the contracts see them.
spec fn frame_views(stack: Seq<Frame>) -> Seq<FrameView> {
    Seq::new(stack.len(), |k: int| stack[k]@)
}

/// A traversal of the tree under a root. It names, one at a time, the directories that
/// its caller must list for it, and keeps all that it reports in its transcript.
pub struct Walker {
    limit: usize,
    dirs_only: bool,
    include_hidden: bool,
    stack: Vec<Frame>,
    waiting: bool,
    transcript: Vec<Record>,
    directories: usize,
    files: usize,
}

impl View for Walker {
    type V = WalkerView;

    closed spec fn view(&self) -> WalkerView {
        WalkerView {
            policy: Policy {
                limit: self.limit as nat,
                dirs_only: self.dirs_only,
                include_hidden: self.include_hidden,
            },
            stack: frame_views(self.stack@),
            waiting: self.waiting,
            transcript: record_views(self.transcript@),
        }
    }
}

impl Walker {
    /// The counters hold what the transcript counts.
    pub closed spec fn counted(&self) -> bool {
        &&& self.directories == directories(self@.transcript)
        &&& self.files == files(self@.transcript)
    }

    /// What holds of every traversal that this module hands out.
    pub open spec fn wf(&self) -> bool {
        &&& self@.wf()
        &&& self.counted()
    }

    /// What holds while the traversal moves on.
    spec fn moving(&self) -> bool {
        &&& self@.sound()
        &&& self.counted()
    }

    /// Starts a traversal: the root is reported, and its listing is asked for.
    pub fn new(args: &Args) -> (walker: Walker)
        ensures
            walker.wf(),
            walker@ == started(args@.depth, args@.dirs_only, args@.include_hidden),
    {
        let mut transcript: Vec<Record> = Vec::new();
        transcript.push(Record::Root);
        let limit = args.depth();
        let walker = Walker {
            limit,
            dirs_only: args.dirs_only(),
            include_hidden: args.include_hidden(),
            stack: Vec::new(),
            waiting: limit > 0,
            transcript,
            directories: 1,
            files: 0,
        };
        proof {
            let t = walker@.transcript;
            assert(t =~= seq![RecordView::Root]);
            assert(t.drop_last().len() == 0);
            assert(directories(t.drop_last()) == 0);
            assert(files(t.drop_last()) == 0);
            assert(walker@.stack =~= Seq::empty());
        }
        walker
    }

    /// The directory that must be listed next, by the names that lead to it from the root;
    /// `None` once the traversal is done.
    pub fn request(&self) -> (path: Option<Vec<String>>)
        requires
            self.wf(),
        ensures
            match path {
                Some(names) => self@.waiting && name_views(names@) == self@.path(),
                None => !self@.waiting,
            },
    {
        if !self.waiting {
            return None;
        }
        let mut names: Vec<String> = Vec::new();
        let mut k: usize = 0;
        while k < self.stack.len()
            invariant
                self.wf(),
                k <= self.stack@.len(),
                name_views(names@) =~= self@.path().take(k as int),
            decreases self.stack@.len() - k,
        {
            let frame = &self.stack[k];
            assert(frame@ == self@.stack[k as int]);
            let name = frame.entries[frame.next - 1].name.clone();
            let ghost before = name_views(names@);
            names.push(name);
            proof {
                assert(name@ == self@.path()[k as int]);
                assert(name_views(names@) =~= before.push(name@));
                assert(self@.path().take(k + 1) =~= self@.path().take(k as int).push(name@));
            }
            k += 1;
        }
        assert(self@.path().take(k as int) =~= self@.path());
        Some(names)
    }

    /// Whether the traversal is done: it then waits for no listing.
    pub fn is_finished(&self) -> (done: bool)
        ensures
            done == self@.finished(),
    {
        !self.waiting
    }

    /// All that was reported so far, in the order in which it was found.
    pub fn transcript(&self) -> (records: &Vec<Record>)
        ensures
            record_views(records@) == self@.transcript,
    {
        &self.transcript
    }

    /// How many directories were counted so far, the root among them.
    pub fn directory_count(&self) -> (count: usize)
        requires
            self.wf(),
        ensures
            count == directories(self@.transcript),
            count >= 1,
    {
        proof {
            lemma_root_is_counted(self@.transcript);
        }
        self.directories
    }

    /// How many files were counted so far.
    pub fn file_count(&self) -> (count: usize)
        requires
            self.wf(),
        ensures
            count == files(self@.transcript),
    {
        self.files
    }

    /// What closes the output: an empty line, then the counts as they stand.
    pub fn footer(&self) -> (text: String)
        requires
            self.wf(),
        ensures
            text@ == footer_text(directories(self@.transcript), files(self@.transcript)),
    {
        render_footer(self.directories, self.files)
    }

    /// Reports `record` and counts it.
    fn report(&mut self, record: Record)
        requires
            old(self).moving(),
            keeps_to(old(self)@.policy, 0, record@),
        ensures
            final(self).moving(),
            final(self)@ == (WalkerView {
                transcript: old(self)@.transcript.push(record@),
                ..old(self)@
            }),
            final(self).stack == old(self).stack,
            final(self).waiting == old(self).waiting,
    {
        let ghost before = self@.transcript;
        let counts_directory = match &record {
            Record::Root => true,
            Record::Visit { depth, last, name, directory } => *directory,
            _ => false,
        };
        let counts_file = match &record {
            Record::Visit { depth, last, name, directory } => !*directory,
            _ => false,
        };
        self.transcript.push(record);
        proof {
            let after = self@.transcript;
            assert(after =~= before.push(record@));
            assert(after.drop_last() =~= before);
            assert(after.last() == record@);
            assert(after.len() == self.transcript.len());
            lemma_counts_bounded(after);
        }
        if counts_directory {
            self.directories += 1;
        }
        if counts_file {
            self.files += 1;
        }
    }

    /// Takes in the answer to the request and moves on until another listing is needed or
    /// the traversal is done. `None` stands for a directory that could not be listed.
    /// A traversal that is done stays as it is.
    pub fn resume(&mut self, listing: Option<Vec<Entry>>)
        requires
            old(self).wf(),
        ensures
            final(self).wf(),
            final(self)@ == old(self)@.resumed(listing_view(listing)),
    {
        if !self.waiting {
            return;
        }
        let ghost start = self@.answered(listing_view(listing));
        match listing {
            None => {
                let path = self.request().unwrap();
                self.waiting = false;
                self.report(Record::Unreadable { path });
            },
            Some(raw) => {
                let entries = visible_entries(raw, self.include_hidden);
                self.waiting = false;
                self.stack.push(Frame { entries, next: 0 });
            },
        }
        assert(self@.stack =~= start.stack);
        assert(self@ == start);
        while !self.waiting && self.stack.len() > 0
            invariant
                self.moving(),
                self@.poised(),
                self@.advanced() == start.advanced(),
            decreases work(self@.stack),
        {
            let ghost before = self@;
            proof {
                lemma_step_reduces_work(before);
            }
            let mut top = self.stack.pop().unwrap();
            assert(frame_views(self.stack@) =~= before.stack.drop_last());
            assert(top@ == before.stack.last());
            if top.next < top.entries.len() {
                let depth = self.stack.len();
                let last = top.next + 1 == top.entries.len();
                let kind = top.entries[top.next].kind;
                let name = top.entries[top.next].name.clone();
                top.next += 1;
                self.stack.push(top);
                assert(frame_views(self.stack@) =~= before.stepped().stack);
                match kind {
                    EntryKind::Unknown => {
                        self.report(Record::Untyped { name });
                    },
                    EntryKind::File => {
                        if !self.dirs_only {
                            self.report(Record::Visit { depth, last, name, directory: false });
                        }
                    },
                    EntryKind::Directory => {
                        self.report(Record::Visit { depth, last, name, directory: true });
                        self.waiting = self.stack.len() < self.limit;
                    },
                }
            }
            assert(self@ == before.stepped());
        }
    }
}

/// The traversal that has reported its root and asks for the root's listing.
pub open spec fn started(limit: nat, dirs_only: bool, include_hidden: bool) -> WalkerView {
    WalkerView {
        policy: Policy { limit, dirs_only, include_hidden },
        stack: Seq::empty(),
        waiting: limit > 0,
        transcript: seq![RecordView::Root],
    }
}

/// No more is counted than was reported.
pub proof fn lemma_counts_bounded(records: Seq<RecordView>)
    ensures
        directories(records) + files(records) <= records.len(),
    decreases records.len(),
{
    if records.len() > 0 {
        lemma_counts_bounded(records.drop_last());
    }
}

/// A transcript that opens with the root counts at least one directory.
pub proof fn lemma_root_is_counted(records: Seq<RecordView>)
    requires
        records.len() > 0,
        records[0] == RecordView::Root,
    ensures
        directories(records) >= 1,
    decreases records.len(),
{
    if records.len() > 1 {
        lemma_root_is_counted(records.drop_last());
    }
}

/// Every move uses up some of the work that the frames allow.
pub proof fn lemma_step_reduces_work(w: WalkerView)
    requires
        w.stack.len() > 0,
    ensures
        work(w.stepped().stack) < work(w.stack),
{
    let top = w.stack.last();
    let below = w.stack.drop_last();
    if top.next < top.entries.len() {
        let moved = below.push(FrameView { next: top.next + 1, ..top });
        assert(moved.drop_last() =~= below);
        assert(w.stepped().stack == moved);
    }
}

} // verus!
