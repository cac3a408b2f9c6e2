//! What a traversal reports of a whole tree, stated at once, and the proof that a walker
//! whose requests are answered from that tree reports exactly this.

use vstd::prelude::*;
use crate::listing::{visible, EntryKind, EntryView};
use crate::record::RecordView;
use crate::walker::{started, visit_of, FrameView, Policy, WalkerView};

verus! {

/// A tree as a traversal meets it: for the names that lead from the root to a directory,
/// the entries of that directory, or `None` where it cannot be listed.
pub type Disk = spec_fn(Seq<Seq<char>>) -> Option<Seq<EntryView>>;

/// What is reported of the directory at `path`, which lies `depth` levels below the root:
/// nothing at the depth limit or below it, a diagnostic where it cannot be listed, else
/// what is reported of its siblings.
pub open spec fn subtree(disk: Disk, policy: Policy, path: Seq<Seq<char>>, depth: nat) -> Seq<
    RecordView,
>
    decreases policy.limit - depth, 1nat, 0nat,
{
    if depth >= policy.limit {
        Seq::empty()
    } else {
        match disk(path) {
            None => seq![RecordView::Unreadable { path }],
            Some(raw) => siblings(
                disk,
                policy,
                path,
                visible(raw, policy.include_hidden),
                0,
                depth,
            ),
        }
    }
}

/// What is reported of the siblings `entries` of the directory at `path`, from the one at
/// `from` on: each in its turn, a directory followed by all that lies under it.
pub open spec fn siblings(
    disk: Disk,
    policy: Policy,
    path: Seq<Seq<char>>,
    entries: Seq<EntryView>,
    from: nat,
    depth: nat,
) -> Seq<RecordView>
    decreases policy.limit - depth, 0nat, entries.len() - from,
{
    if depth >= policy.limit || from >= entries.len() {
        Seq::empty()
    } else {
        let entry = entries[from as int];
        let visit = visit_of(entries, from as int, depth);
        let own = match entry.kind {
            EntryKind::Unknown => seq![RecordView::Untyped { name: entry.name }],
            EntryKind::File => if policy.dirs_only {
                Seq::empty()
            } else {
                seq![visit]
            },
            EntryKind::Directory => seq![visit] + subtree(
                disk,
                policy,
                path.push(entry.name),
                depth + 1,
            ),
        };
        own + siblings(disk, policy, path, entries, from + 1, depth)
    }
}

/// All that a traversal of the tree reports: the root, then what lies under it.
pub open spec fn render(disk: Disk, policy: Policy) -> Seq<RecordView> {
    seq![RecordView::Root] + subtree(disk, policy, Seq::empty(), 0)
}

/// The names that lead from the root to the directory of the frame at `level`.
pub open spec fn frame_path(stack: Seq<FrameView>, level: nat) -> Seq<Seq<char>> {
    Seq::new(level, |k: int| stack[k].entries[stack[k].next - 1].name)
}

/// What the frames below `upto` still have to report, the upper ones first.
pub open spec fn tails(disk: Disk, policy: Policy, stack: Seq<FrameView>, upto: nat) -> Seq<
    RecordView,
>
    decreases upto,
{
    if upto == 0 {
        Seq::empty()
    } else {
        let level = (upto - 1) as nat;
        siblings(
            disk,
            policy,
            frame_path(stack, level),
            stack[level as int].entries,
            stack[level as int].next,
            level,
        ) + tails(disk, policy, stack, level)
    }
}

/// What a traversal of the tree still has to report.
pub open spec fn pending(disk: Disk, w: WalkerView) -> Seq<RecordView> {
    let awaited = if w.waiting {
        subtree(disk, w.policy, w.path(), w.stack.len())
    } else {
        Seq::empty()
    };
    awaited + tails(disk, w.policy, w.stack, w.stack.len())
}

/// What a traversal of the tree has reported when it is done.
pub open spec fn total(disk: Disk, w: WalkerView) -> Seq<RecordView> {
    w.transcript + pending(disk, w)
}

/// The traversal of the tree after `answers` of its requests were answered from the tree.
pub open spec fn run(disk: Disk, policy: Policy, answers: nat) -> WalkerView
    decreases answers,
{
    if answers == 0 {
        started(policy.limit, policy.dirs_only, policy.include_hidden)
    } else {
        let before = run(disk, policy, (answers - 1) as nat);
        before.resumed(disk(before.path()))
    }
}

/// What the frames below `upto` still have to report depends on those frames alone.
pub proof fn lemma_tails_of_lower_frames(
    disk: Disk,
    policy: Policy,
    a: Seq<FrameView>,
    b: Seq<FrameView>,
    upto: nat,
)
    requires
        upto <= a.len(),
        upto <= b.len(),
        forall|k: int| 0 <= k < upto ==> a[k] == b[k],
    ensures
        tails(disk, policy, a, upto) == tails(disk, policy, b, upto),
    decreases upto,
{
    if upto > 0 {
        let level = (upto - 1) as nat;
        assert(frame_path(a, level) =~= frame_path(b, level));
        lemma_tails_of_lower_frames(disk, policy, a, b, level);
    }
}

/// One move neither loses nor adds anything: what was reported and what is still to be
/// reported make up the same whole before and after it.
pub proof fn lemma_step_keeps_total(disk: Disk, w: WalkerView)
    requires
        w.sound(),
        !w.waiting,
        w.stack.len() > 0,
    ensures
        w.stepped().sound(),
        w.stepped().poised(),
        w.stepped().policy == w.policy,
        total(disk, w.stepped()) == total(disk, w),
{
    let policy = w.policy;
    let after = w.stepped();
    let top = w.stack.last();
    let below = w.stack.drop_last();
    let level = below.len();
    let here = frame_path(w.stack, level);
    assert(w.stack[level as int] == top);
    lemma_tails_of_lower_frames(disk, policy, w.stack, after.stack, level);
    if top.next >= top.entries.len() {
        assert(after.stack == below);
        assert(total(disk, after) =~= total(disk, w));
    } else {
        let index = top.next as int;
        let entry = top.entries[index];
        let moved = FrameView { next: top.next + 1, ..top };
        assert(after.stack == below.push(moved));
        assert(after.stack[level as int] == moved);
        assert(frame_path(after.stack, level) =~= here);
        assert(after.path() =~= here.push(entry.name));
        let rest = siblings(disk, policy, here, top.entries, top.next + 1, level);
        let lower = tails(disk, policy, w.stack, level);
        let visit = visit_of(top.entries, index, level);
        let under = subtree(disk, policy, here.push(entry.name), level + 1);
        assert(tails(disk, policy, after.stack, after.stack.len()) == rest + lower);
        assert(pending(disk, w) =~= siblings(disk, policy, here, top.entries, top.next, level)
            + lower);
        match entry.kind {
            EntryKind::Unknown => {
                let own = seq![RecordView::Untyped { name: entry.name }];
                assert(after.transcript == w.transcript.push(own[0]));
                assert(pending(disk, w) =~= own + rest + lower);
                assert(pending(disk, after) =~= rest + lower);
                assert(total(disk, after) =~= total(disk, w));
            },
            EntryKind::File => {
                if policy.dirs_only {
                    assert(pending(disk, w) =~= rest + lower);
                    assert(pending(disk, after) =~= rest + lower);
                } else {
                    assert(after.transcript == w.transcript.push(visit));
                    assert(pending(disk, w) =~= seq![visit] + rest + lower);
                    assert(pending(disk, after) =~= rest + lower);
                }
                assert(total(disk, after) =~= total(disk, w));
            },
            EntryKind::Directory => {
                assert(after.transcript == w.transcript.push(visit));
                assert(pending(disk, w) =~= seq![visit] + under + rest + lower);
                if after.waiting {
                    assert(pending(disk, after) =~= under + rest + lower);
                } else {
                    assert(under =~= Seq::empty());
                    assert(pending(disk, after) =~= rest + lower);
                }
                assert(total(disk, after) =~= total(disk, w));
            },
        }
    }
}

/// Moving on neither loses nor adds anything.
pub proof fn lemma_advance_keeps_total(disk: Disk, w: WalkerView)
    requires
        w.sound(),
        w.poised(),
    ensures
        w.advanced().wf(),
        w.advanced().policy == w.policy,
        total(disk, w.advanced()) == total(disk, w),
    decreases work_of(w),
{
    if !(w.waiting || w.stack.len() == 0) {
        crate::walker::lemma_step_reduces_work(w);
        lemma_step_keeps_total(disk, w);
        lemma_advance_keeps_total(disk, w.stepped());
    }
}

/// The measure by which moving on ends.
pub open spec fn work_of(w: WalkerView) -> nat {
    crate::walker::work(w.stack)
}

/// An answer from the tree neither loses nor adds anything, and leaves the traversal as
/// it must be between two moves of its caller.
pub proof fn lemma_resume_keeps_total(disk: Disk, w: WalkerView)
    requires
        w.wf(),
    ensures
        w.resumed(disk(w.path())).wf(),
        w.resumed(disk(w.path())).policy == w.policy,
        total(disk, w.resumed(disk(w.path()))) == total(disk, w),
{
    if w.waiting {
        let policy = w.policy;
        let level = w.stack.len();
        let taken = w.answered(disk(w.path()));
        lemma_tails_of_lower_frames(disk, policy, w.stack, taken.stack, level);
        match disk(w.path()) {
            None => {
                assert(total(disk, taken) =~= total(disk, w));
            },
            Some(raw) => {
                crate::listing::lemma_visible_properties(raw, policy.include_hidden);
                assert(frame_path(taken.stack, level) =~= w.path());
                assert(total(disk, taken) =~= total(disk, w));
            },
        }
        assert(taken.sound());
        lemma_advance_keeps_total(disk, taken);
    }
}

/// However many requests were answered from the tree, what was reported and what is
/// still to be reported make up what is reported of the tree as a whole.
pub proof fn lemma_run_keeps_total(disk: Disk, policy: Policy, answers: nat)
    ensures
        run(disk, policy, answers).wf(),
        run(disk, policy, answers).policy == policy,
        total(disk, run(disk, policy, answers)) == render(disk, policy),
    decreases answers,
{
    if answers == 0 {
        let w = run(disk, policy, 0);
        assert(w.path() =~= Seq::empty());
        assert(total(disk, w) =~= render(disk, policy));
    } else {
        lemma_run_keeps_total(disk, policy, (answers - 1) as nat);
        lemma_resume_keeps_total(disk, run(disk, policy, (answers - 1) as nat));
    }
}

/// A traversal whose requests were answered from the tree and that is done has reported
/// exactly what is reported of the tree as a whole.
pub proof fn lemma_finished_run_reports_the_tree(disk: Disk, policy: Policy, answers: nat)
    requires
        run(disk, policy, answers).finished(),
    ensures
        run(disk, policy, answers).transcript == render(disk, policy),
{
    lemma_run_keeps_total(disk, policy, answers);
    let w = run(disk, policy, answers);
    assert(pending(disk, w) =~= Seq::empty());
    assert(total(disk, w) =~= w.transcript);
}

/// How many listings a traversal asks for to report the directory at `path`: none at
/// the depth limit or below it, else its own and those of the directories under it.
pub open spec fn listings_under(disk: Disk, policy: Policy, path: Seq<Seq<char>>, depth: nat) -> nat
    decreases policy.limit - depth, 1nat, 0nat,
{
    if depth >= policy.limit {
        0
    } else {
        1 + match disk(path) {
            None => 0nat,
            Some(raw) => listings_among(
                disk,
                policy,
                path,
                visible(raw, policy.include_hidden),
                0,
                depth,
            ),
        }
    }
}

/// How many listings a traversal asks for to report the siblings `entries` from the one
/// at `from` on.
pub open spec fn listings_among(
    disk: Disk,
    policy: Policy,
    path: Seq<Seq<char>>,
    entries: Seq<EntryView>,
    from: nat,
    depth: nat,
) -> nat
    decreases policy.limit - depth, 0nat, entries.len() - from,
{
    if depth >= policy.limit || from >= entries.len() {
        0
    } else {
        let entry = entries[from as int];
        let own = if entry.kind == EntryKind::Directory {
            listings_under(disk, policy, path.push(entry.name), depth + 1)
        } else {
            0
        };
        own + listings_among(disk, policy, path, entries, from + 1, depth)
    }
}

/// How many listings the frames below `upto` still need.
pub open spec fn tail_listings(disk: Disk, policy: Policy, stack: Seq<FrameView>, upto: nat) -> nat
    decreases upto,
{
    if upto == 0 {
        0
    } else {
        let level = (upto - 1) as nat;
        listings_among(
            disk,
            policy,
            frame_path(stack, level),
            stack[level as int].entries,
            stack[level as int].next,
            level,
        ) + tail_listings(disk, policy, stack, level)
    }
}

/// How many listings a traversal of the tree still has to ask for.
pub open spec fn pending_listings(disk: Disk, w: WalkerView) -> nat {
    let awaited = if w.waiting {
        listings_under(disk, w.policy, w.path(), w.stack.len())
    } else {
        0
    };
    awaited + tail_listings(disk, w.policy, w.stack, w.stack.len())
}

/// How many listings the frames below `upto` still need depends on those frames alone.
pub proof fn lemma_tail_listings_of_lower_frames(
    disk: Disk,
    policy: Policy,
    a: Seq<FrameView>,
    b: Seq<FrameView>,
    upto: nat,
)
    requires
        upto <= a.len(),
        upto <= b.len(),
        forall|k: int| 0 <= k < upto ==> a[k] == b[k],
    ensures
        tail_listings(disk, policy, a, upto) == tail_listings(disk, policy, b, upto),
    decreases upto,
{
    if upto > 0 {
        let level = (upto - 1) as nat;
        assert(frame_path(a, level) =~= frame_path(b, level));
        lemma_tail_listings_of_lower_frames(disk, policy, a, b, level);
    }
}

/// One move asks for nothing and changes nothing in what is still to be asked for.
pub proof fn lemma_step_keeps_listings(disk: Disk, w: WalkerView)
    requires
        w.sound(),
        !w.waiting,
        w.stack.len() > 0,
    ensures
        pending_listings(disk, w.stepped()) == pending_listings(disk, w),
{
    let policy = w.policy;
    let after = w.stepped();
    let top = w.stack.last();
    let below = w.stack.drop_last();
    let level = below.len();
    let here = frame_path(w.stack, level);
    assert(w.stack[level as int] == top);
    lemma_tail_listings_of_lower_frames(disk, policy, w.stack, after.stack, level);
    if top.next >= top.entries.len() {
        assert(after.stack == below);
    } else {
        let entry = top.entries[top.next as int];
        let moved = FrameView { next: top.next + 1, ..top };
        assert(after.stack == below.push(moved));
        assert(after.stack[level as int] == moved);
        assert(frame_path(after.stack, level) =~= here);
        assert(after.path() =~= here.push(entry.name));
        let rest = listings_among(disk, policy, here, top.entries, top.next + 1, level);
        let lower = tail_listings(disk, policy, w.stack, level);
        let under = listings_under(disk, policy, here.push(entry.name), level + 1);
        assert(tail_listings(disk, policy, after.stack, after.stack.len()) == rest + lower);
        assert(pending_listings(disk, w) == listings_among(
            disk,
            policy,
            here,
            top.entries,
            top.next,
            level,
        ) + lower);
        if entry.kind == EntryKind::Directory {
            assert(pending_listings(disk, w) == under + rest + lower);
            if !after.waiting {
                assert(under == 0);
            }
        } else {
            assert(!after.waiting);
            assert(pending_listings(disk, w) == rest + lower);
        }
    }
}

/// Moving on asks for nothing and changes nothing in what is still to be asked for.
pub proof fn lemma_advance_keeps_listings(disk: Disk, w: WalkerView)
    requires
        w.sound(),
        w.poised(),
    ensures
        pending_listings(disk, w.advanced()) == pending_listings(disk, w),
    decreases work_of(w),
{
    if !(w.waiting || w.stack.len() == 0) {
        crate::walker::lemma_step_reduces_work(w);
        lemma_step_keeps_total(disk, w);
        lemma_step_keeps_listings(disk, w);
        lemma_advance_keeps_listings(disk, w.stepped());
    }
}

/// A traversal that waits has something to ask for, and each answer from the tree
/// leaves it one listing less to ask for; one that is done has nothing to ask for.
pub proof fn lemma_resume_uses_one_listing(disk: Disk, w: WalkerView)
    requires
        w.wf(),
    ensures
        w.waiting ==> pending_listings(disk, w.resumed(disk(w.path()))) + 1 == pending_listings(
            disk,
            w,
        ),
        !w.waiting ==> pending_listings(disk, w) == 0,
{
    if w.waiting {
        let policy = w.policy;
        let level = w.stack.len();
        let taken = w.answered(disk(w.path()));
        lemma_tail_listings_of_lower_frames(disk, policy, w.stack, taken.stack, level);
        match disk(w.path()) {
            None => {},
            Some(raw) => {
                crate::listing::lemma_visible_properties(raw, policy.include_hidden);
                assert(frame_path(taken.stack, level) =~= w.path());
            },
        }
        assert(taken.sound());
        assert(pending_listings(disk, taken) + 1 == pending_listings(disk, w));
        lemma_advance_keeps_listings(disk, taken);
    }
}

/// After a number of answers from the tree, a traversal has as many listings less to ask
/// for, as long as it had that many to ask for at the start.
pub proof fn lemma_run_counts_down(disk: Disk, policy: Policy, answers: nat)
    requires
        answers <= listings_under(disk, policy, Seq::empty(), 0),
    ensures
        pending_listings(disk, run(disk, policy, answers)) + answers == listings_under(
            disk,
            policy,
            Seq::empty(),
            0,
        ),
    decreases answers,
{
    if answers == 0 {
        let w = run(disk, policy, 0);
        assert(w.path() =~= Seq::empty());
    } else {
        let before = run(disk, policy, (answers - 1) as nat);
        lemma_run_counts_down(disk, policy, (answers - 1) as nat);
        lemma_run_keeps_total(disk, policy, (answers - 1) as nat);
        lemma_resume_uses_one_listing(disk, before);
    }
}

/// Every traversal of a tree comes to an end: it asks for exactly as many listings as
/// the tree calls for, is done after the last of them and not before, and has then
/// reported exactly what is reported of the tree as a whole.
pub proof fn lemma_run_ends_with_the_tree(disk: Disk, policy: Policy)
    ensures
        run(disk, policy, listings_under(disk, policy, Seq::empty(), 0)).finished(),
        run(disk, policy, listings_under(disk, policy, Seq::empty(), 0)).transcript == render(
            disk,
            policy,
        ),
        forall|answers: nat|
            answers < listings_under(disk, policy, Seq::empty(), 0) ==> !(#[trigger] run(
                disk,
                policy,
                answers,
            )).finished(),
{
    let needed = listings_under(disk, policy, Seq::empty(), 0);
    let last = run(disk, policy, needed);
    lemma_run_counts_down(disk, policy, needed);
    lemma_run_keeps_total(disk, policy, needed);
    assert(last.finished()) by {
        if last.waiting {
            assert(listings_under(disk, policy, last.path(), last.stack.len()) >= 1);
        }
    }
    lemma_finished_run_reports_the_tree(disk, policy, needed);
    assert forall|answers: nat| answers < needed implies !(#[trigger] run(
        disk,
        policy,
        answers,
    )).finished() by {
        lemma_run_counts_down(disk, policy, answers);
        lemma_run_keeps_total(disk, policy, answers);
        lemma_resume_uses_one_listing(disk, run(disk, policy, answers));
    }
}

} // verus!
