//! What holds of everything that a traversal reports.

use vstd::prelude::*;
use crate::listing::{ascending, distinct_names, visible, EntryKind, EntryView};
use crate::name::{is_hidden, name_le};
use crate::record::RecordView;
use crate::tree::{render, siblings, subtree, Disk};
use crate::walker::{
    all_keep_to, all_shown, descended, directories, files, keeps_to, visit_of, Policy, WalkerView,
};

verus! {

/// The policy that differs from `policy` in showing files or not.
pub open spec fn with_dirs_only(policy: Policy, dirs_only: bool) -> Policy {
    Policy { dirs_only, ..policy }
}

/// A record is the visit of something that is no directory.
pub open spec fn is_file_visit(record: RecordView) -> bool {
    record matches RecordView::Visit { depth, last, name, directory } && !directory
}

/// The records without the visits of files.
pub open spec fn without_files(records: Seq<RecordView>) -> Seq<RecordView>
    decreases records.len(),
{
    if records.len() == 0 {
        Seq::empty()
    } else if is_file_visit(records.last()) {
        without_files(records.drop_last())
    } else {
        without_files(records.drop_last()).push(records.last())
    }
}

/// A record is the visit of an entry that lies `depth` levels below the root.
pub open spec fn is_visit_at(record: RecordView, depth: nat) -> bool {
    record matches RecordView::Visit { depth: d, last, name, directory } && d == depth
}

/// The visits of the entries that lie `depth` levels below the root, in the order in
/// which they were reported.
pub open spec fn at_level(records: Seq<RecordView>, depth: nat) -> Seq<RecordView>
    decreases records.len(),
{
    if records.len() == 0 {
        Seq::empty()
    } else if is_visit_at(records.last(), depth) {
        at_level(records.drop_last(), depth).push(records.last())
    } else {
        at_level(records.drop_last(), depth)
    }
}

/// An entry gets a line: it is a directory, or a file where files are shown.
pub open spec fn is_listed(entry: EntryView, dirs_only: bool) -> bool {
    entry.kind == EntryKind::Directory || (entry.kind == EntryKind::File && !dirs_only)
}

/// The visits of the siblings `entries`, from the one at `from` on, that get a line.
pub open spec fn listed(entries: Seq<EntryView>, from: nat, depth: nat, dirs_only: bool) -> Seq<
    RecordView,
>
    decreases entries.len() - from,
{
    if from >= entries.len() {
        Seq::empty()
    } else {
        let own = if is_listed(entries[from as int], dirs_only) {
            seq![visit_of(entries, from as int, depth)]
        } else {
            Seq::empty()
        };
        own + listed(entries, from + 1, depth, dirs_only)
    }
}

/// The name in a visit.
pub open spec fn visit_name(record: RecordView) -> Seq<char> {
    match record {
        RecordView::Visit { depth, last, name, directory } => name,
        _ => Seq::empty(),
    }
}

/// Whether a visit is marked as the one of the last sibling.
pub open spec fn is_marked_last(record: RecordView) -> bool {
    record matches RecordView::Visit { depth, last, name, directory } && last
}

/// No entry at the depth limit or below it is ever reported.
pub proof fn lemma_depth_bound(w: WalkerView, i: int)
    requires
        w.wf(),
        0 <= i < w.transcript.len(),
    ensures
        w.transcript[i] matches RecordView::Visit { depth, last, name, directory } ==> depth
            < w.policy.limit,
        w.waiting ==> w.path().len() < w.policy.limit,
{
    assert(keeps_to(w.policy, 0, w.transcript[i]));
}

/// Where hidden entries are not shown, no name that is reported begins with a dot.
pub proof fn lemma_hidden_entries_stay_out(w: WalkerView, i: int)
    requires
        w.wf(),
        !w.policy.include_hidden,
        0 <= i < w.transcript.len(),
    ensures
        w.transcript[i] matches RecordView::Visit { depth, last, name, directory } ==> !is_hidden(
            name,
        ),
{
    assert(keeps_to(w.policy, 0, w.transcript[i]));
}

/// A traversal asks for the listing of directories only, and where hidden entries are
/// not shown, no hidden directory lies on the way to one that it asks for.
pub proof fn lemma_only_shown_directories_are_entered(w: WalkerView, level: int)
    requires
        w.wf(),
        w.waiting,
        0 <= level < w.path().len(),
    ensures
        descended(w.stack[level]),
        w.path()[level] == w.stack[level].entries[w.stack[level].next - 1].name,
        !w.policy.include_hidden ==> !is_hidden(w.path()[level]),
{
    let frame = w.stack[level];
    assert(all_shown(frame.entries, w.policy.include_hidden));
    assert(crate::listing::is_shown(frame.entries[frame.next - 1], w.policy.include_hidden));
}

/// Records of which every visit is one of a directory count no file.
pub proof fn lemma_no_file_visit_no_file(records: Seq<RecordView>)
    requires
        forall|i: int| 0 <= i < records.len() ==> !is_file_visit(#[trigger] records[i]),
    ensures
        files(records) == 0,
    decreases records.len(),
{
    if records.len() > 0 {
        assert(!is_file_visit(records[records.len() - 1]));
        lemma_no_file_visit_no_file(records.drop_last());
    }
}

/// Where only directories are shown, nothing but directories is reported, and no file
/// is counted.
pub proof fn lemma_directories_only(w: WalkerView)
    requires
        w.wf(),
        w.policy.dirs_only,
    ensures
        forall|i: int|
            0 <= i < w.transcript.len() ==> !is_file_visit(#[trigger] w.transcript[i]),
        files(w.transcript) == 0,
{
    assert forall|i: int| 0 <= i < w.transcript.len() implies !is_file_visit(
        #[trigger] w.transcript[i],
    ) by {
        assert(keeps_to(w.policy, 0, w.transcript[i]));
    }
    lemma_no_file_visit_no_file(w.transcript);
}

/// What is reported of a directory keeps to the policy, and lies at the depth of the
/// directory's entries or below it.
pub proof fn lemma_subtree_keeps_to(disk: Disk, policy: Policy, path: Seq<Seq<char>>, depth: nat)
    ensures
        all_keep_to(policy, depth, subtree(disk, policy, path, depth)),
    decreases policy.limit - depth, 1nat, 0nat,
{
    if depth < policy.limit {
        match disk(path) {
            None => {},
            Some(raw) => {
                crate::listing::lemma_visible_properties(raw, policy.include_hidden);
                lemma_siblings_keep_to(
                    disk,
                    policy,
                    path,
                    visible(raw, policy.include_hidden),
                    0,
                    depth,
                );
            },
        }
    }
}

/// What is reported of siblings keeps to the policy, and lies at their depth or below it.
pub proof fn lemma_siblings_keep_to(
    disk: Disk,
    policy: Policy,
    path: Seq<Seq<char>>,
    entries: Seq<EntryView>,
    from: nat,
    depth: nat,
)
    requires
        all_shown(entries, policy.include_hidden),
    ensures
        all_keep_to(policy, depth, siblings(disk, policy, path, entries, from, depth)),
    decreases policy.limit - depth, 0nat, entries.len() - from,
{
    if depth < policy.limit && from < entries.len() {
        let entry = entries[from as int];
        let under = subtree(disk, policy, path.push(entry.name), depth + 1);
        lemma_subtree_keeps_to(disk, policy, path.push(entry.name), depth + 1);
        lemma_siblings_keep_to(disk, policy, path, entries, from + 1, depth);
        let all = siblings(disk, policy, path, entries, from, depth);
        let rest = siblings(disk, policy, path, entries, from + 1, depth);
        assert forall|i: int| 0 <= i < all.len() implies keeps_to(policy, depth, #[trigger] all[i]) by {
            let own_len = all.len() - rest.len();
            if i >= own_len {
                assert(all[i] == rest[i - own_len]);
            } else if entry.kind == EntryKind::Directory && i > 0 {
                assert(all[i] == under[i - 1]);
                assert(keeps_to(policy, depth + 1, under[i - 1]));
            }
        }
    }
}

/// All that is reported of a tree keeps to the policy: nothing at the depth limit or
/// below it, nothing hidden unless hidden entries are shown, and nothing but directories
/// where only directories are shown.
pub proof fn lemma_render_keeps_to(disk: Disk, policy: Policy)
    ensures
        all_keep_to(policy, 0, render(disk, policy)),
        render(disk, policy).len() > 0,
        render(disk, policy)[0] == RecordView::Root,
        directories(render(disk, policy)) >= 1,
        policy.dirs_only ==> files(render(disk, policy)) == 0,
{
    let all = render(disk, policy);
    let under = subtree(disk, policy, Seq::empty(), 0);
    lemma_subtree_keeps_to(disk, policy, Seq::empty(), 0);
    assert forall|i: int| 0 <= i < all.len() implies keeps_to(policy, 0, #[trigger] all[i]) by {
        if i > 0 {
            assert(all[i] == under[i - 1]);
        }
    }
    crate::walker::lemma_root_is_counted(all);
    if policy.dirs_only {
        assert forall|i: int| 0 <= i < all.len() implies !is_file_visit(#[trigger] all[i]) by {
            assert(keeps_to(policy, 0, all[i]));
        }
        lemma_no_file_visit_no_file(all);
    }
}

/// A single record stays unless it is the visit of a file.
pub proof fn lemma_without_files_of_one(record: RecordView)
    ensures
        without_files(seq![record]) == if is_file_visit(record) {
            Seq::<RecordView>::empty()
        } else {
            seq![record]
        },
{
    let one = seq![record];
    assert(one.last() == record);
    assert(one.drop_last().len() == 0);
    assert(without_files(one.drop_last()) =~= Seq::empty());
    if is_file_visit(record) {
        assert(without_files(one) =~= Seq::empty());
    } else {
        assert(without_files(one) =~= one);
    }
}

/// Leaving out the visits of files goes record by record.
pub proof fn lemma_without_files_of_parts(a: Seq<RecordView>, b: Seq<RecordView>)
    ensures
        without_files(a + b) == without_files(a) + without_files(b),
    decreases b.len(),
{
    if b.len() == 0 {
        assert(a + b =~= a);
        assert(without_files(a) + without_files(b) =~= without_files(a));
    } else {
        lemma_without_files_of_parts(a, b.drop_last());
        assert((a + b).drop_last() =~= a + b.drop_last());
        assert((a + b).last() == b.last());
        assert(without_files(a + b) =~= without_files(a) + without_files(b));
    }
}

/// Leaving out the visits of files leaves no file to count and every directory counted.
pub proof fn lemma_without_files_counts(records: Seq<RecordView>)
    ensures
        files(without_files(records)) == 0,
        directories(without_files(records)) == directories(records),
    decreases records.len(),
{
    if records.len() > 0 {
        lemma_without_files_counts(records.drop_last());
        if !is_file_visit(records.last()) {
            let kept = without_files(records);
            assert(kept.drop_last() =~= without_files(records.drop_last()));
            assert(kept.last() == records.last());
        }
    }
}

/// Where only directories are shown, what is reported of a directory is what is
/// reported of it otherwise, without the visits of files.
pub proof fn lemma_subtree_without_files(
    disk: Disk,
    policy: Policy,
    path: Seq<Seq<char>>,
    depth: nat,
)
    ensures
        subtree(disk, with_dirs_only(policy, true), path, depth) == without_files(
            subtree(disk, with_dirs_only(policy, false), path, depth),
        ),
    decreases policy.limit - depth, 1nat, 0nat,
{
    let shown_files = subtree(disk, with_dirs_only(policy, false), path, depth);
    if depth < policy.limit {
        match disk(path) {
            None => {
                lemma_without_files_of_one(RecordView::Unreadable { path });
            },
            Some(raw) => {
                lemma_siblings_without_files(
                    disk,
                    policy,
                    path,
                    visible(raw, policy.include_hidden),
                    0,
                    depth,
                );
            },
        }
    }
}

/// Where only directories are shown, what is reported of siblings is what is reported
/// of them otherwise, without the visits of files.
pub proof fn lemma_siblings_without_files(
    disk: Disk,
    policy: Policy,
    path: Seq<Seq<char>>,
    entries: Seq<EntryView>,
    from: nat,
    depth: nat,
)
    ensures
        siblings(disk, with_dirs_only(policy, true), path, entries, from, depth) == without_files(
            siblings(disk, with_dirs_only(policy, false), path, entries, from, depth),
        ),
    decreases policy.limit - depth, 0nat, entries.len() - from,
{
    let only = with_dirs_only(policy, true);
    let both = with_dirs_only(policy, false);
    if depth < policy.limit && from < entries.len() {
        let entry = entries[from as int];
        let visit = visit_of(entries, from as int, depth);
        let child = path.push(entry.name);
        lemma_subtree_without_files(disk, policy, child, depth + 1);
        lemma_siblings_without_files(disk, policy, path, entries, from + 1, depth);
        let rest_both = siblings(disk, both, path, entries, from + 1, depth);
        let under_both = subtree(disk, both, child, depth + 1);
        let own_both = match entry.kind {
            EntryKind::Unknown => seq![RecordView::Untyped { name: entry.name }],
            EntryKind::File => seq![visit],
            EntryKind::Directory => seq![visit] + under_both,
        };
        assert(siblings(disk, both, path, entries, from, depth) == own_both + rest_both);
        lemma_without_files_of_parts(own_both, rest_both);
        match entry.kind {
            EntryKind::Unknown => {
                lemma_without_files_of_one(RecordView::Untyped { name: entry.name });
            },
            EntryKind::File => {
                lemma_without_files_of_one(visit);
            },
            EntryKind::Directory => {
                lemma_without_files_of_parts(seq![visit], under_both);
                lemma_without_files_of_one(visit);
            },
        }
    }
}

/// Showing only directories changes nothing but this: the visits of files are left out.
/// The directories that are reported and counted are the same.
pub proof fn lemma_dirs_only_leaves_directories(disk: Disk, policy: Policy)
    ensures
        render(disk, with_dirs_only(policy, true)) == without_files(
            render(disk, with_dirs_only(policy, false)),
        ),
        directories(render(disk, with_dirs_only(policy, true))) == directories(
            render(disk, with_dirs_only(policy, false)),
        ),
        files(render(disk, with_dirs_only(policy, true))) == 0,
{
    let both = with_dirs_only(policy, false);
    let root = seq![RecordView::Root];
    lemma_subtree_without_files(disk, policy, Seq::empty(), 0);
    lemma_without_files_of_parts(root, subtree(disk, both, Seq::empty(), 0));
    lemma_without_files_of_one(RecordView::Root);
    lemma_without_files_counts(render(disk, both));
}

/// A record is the visit of one of the siblings `entries`, from the one at `from` on,
/// that gets a line.
pub open spec fn is_visit_of_sibling(
    entries: Seq<EntryView>,
    from: nat,
    depth: nat,
    dirs_only: bool,
    record: RecordView,
) -> bool {
    exists|k: int|
        from <= k < entries.len() && is_listed(entries[k], dirs_only) && record == #[trigger] visit_of(
            entries,
            k,
            depth,
        )
}

/// A single record is at a level if it is the visit of an entry there.
pub proof fn lemma_at_level_of_one(record: RecordView, depth: nat)
    ensures
        at_level(seq![record], depth) == if is_visit_at(record, depth) {
            seq![record]
        } else {
            Seq::<RecordView>::empty()
        },
{
    let one = seq![record];
    assert(one.last() == record);
    assert(one.drop_last().len() == 0);
    assert(at_level(one.drop_last(), depth) =~= Seq::empty());
    if is_visit_at(record, depth) {
        assert(at_level(one, depth) =~= one);
    } else {
        assert(at_level(one, depth) =~= Seq::empty());
    }
}

/// The visits at a level are found part by part.
pub proof fn lemma_at_level_of_parts(a: Seq<RecordView>, b: Seq<RecordView>, depth: nat)
    ensures
        at_level(a + b, depth) == at_level(a, depth) + at_level(b, depth),
    decreases b.len(),
{
    if b.len() == 0 {
        assert(a + b =~= a);
        assert(at_level(a, depth) + at_level(b, depth) =~= at_level(a, depth));
    } else {
        lemma_at_level_of_parts(a, b.drop_last(), depth);
        assert((a + b).drop_last() =~= a + b.drop_last());
        assert((a + b).last() == b.last());
        assert(at_level(a + b, depth) =~= at_level(a, depth) + at_level(b, depth));
    }
}

/// Records that lie at `floor` or below it hold no visit above `floor`.
pub proof fn lemma_at_level_above(policy: Policy, floor: nat, records: Seq<RecordView>, depth: nat)
    requires
        all_keep_to(policy, floor, records),
        depth < floor,
    ensures
        at_level(records, depth) == Seq::<RecordView>::empty(),
    decreases records.len(),
{
    if records.len() > 0 {
        assert(keeps_to(policy, floor, records[records.len() - 1]));
        assert forall|i: int| 0 <= i < records.drop_last().len() implies keeps_to(
            policy,
            floor,
            #[trigger] records.drop_last()[i],
        ) by {
            assert(keeps_to(policy, floor, records[i]));
        }
        lemma_at_level_above(policy, floor, records.drop_last(), depth);
    }
}

/// Of all that is reported of siblings, the visits at their own level are the visits of
/// those that get a line, in the order of the siblings.
pub proof fn lemma_siblings_at_level(
    disk: Disk,
    policy: Policy,
    path: Seq<Seq<char>>,
    entries: Seq<EntryView>,
    from: nat,
    depth: nat,
)
    requires
        depth < policy.limit,
    ensures
        at_level(siblings(disk, policy, path, entries, from, depth), depth) == listed(
            entries,
            from,
            depth,
            policy.dirs_only,
        ),
    decreases entries.len() - from,
{
    if from < entries.len() {
        let entry = entries[from as int];
        let visit = visit_of(entries, from as int, depth);
        let under = subtree(disk, policy, path.push(entry.name), depth + 1);
        let rest = siblings(disk, policy, path, entries, from + 1, depth);
        lemma_siblings_at_level(disk, policy, path, entries, from + 1, depth);
        match entry.kind {
            EntryKind::Unknown => {
                let own = seq![RecordView::Untyped { name: entry.name }];
                lemma_at_level_of_one(own[0], depth);
                lemma_at_level_of_parts(own, rest, depth);
                assert(at_level(own, depth) + at_level(rest, depth) =~= at_level(rest, depth));
                assert(Seq::<RecordView>::empty() + listed(
                    entries,
                    from + 1,
                    depth,
                    policy.dirs_only,
                ) =~= listed(entries, from + 1, depth, policy.dirs_only));
            },
            EntryKind::File => {
                if policy.dirs_only {
                    assert(Seq::<RecordView>::empty() + rest =~= rest);
                    assert(Seq::<RecordView>::empty() + listed(
                        entries,
                        from + 1,
                        depth,
                        policy.dirs_only,
                    ) =~= listed(entries, from + 1, depth, policy.dirs_only));
                } else {
                    lemma_at_level_of_one(visit, depth);
                    lemma_at_level_of_parts(seq![visit], rest, depth);
                }
            },
            EntryKind::Directory => {
                lemma_subtree_keeps_to(disk, policy, path.push(entry.name), depth + 1);
                lemma_at_level_above(policy, depth + 1, under, depth);
                lemma_at_level_of_one(visit, depth);
                lemma_at_level_of_parts(seq![visit], under, depth);
                lemma_at_level_of_parts(seq![visit] + under, rest, depth);
                assert(at_level(seq![visit] + under, depth) =~= seq![visit]);
            },
        }
    } else {
        assert(at_level(Seq::empty(), depth) =~= Seq::empty());
    }
}

/// The siblings that get a line get it in ascending order of their names, and the mark
/// of the last sibling goes to the last of all siblings and to no other: where that one
/// gets a line, it is the last line of the level and the only one marked.
pub proof fn lemma_listed_in_order(entries: Seq<EntryView>, from: nat, depth: nat, dirs_only: bool)
    requires
        ascending(entries),
    ensures
        forall|j: int|
            0 <= j < listed(entries, from, depth, dirs_only).len() ==> is_visit_of_sibling(
                entries,
                from,
                depth,
                dirs_only,
                #[trigger] listed(entries, from, depth, dirs_only)[j],
            ),
        forall|i: int, j: int|
            0 <= i < j < listed(entries, from, depth, dirs_only).len() ==> name_le(
                visit_name(#[trigger] listed(entries, from, depth, dirs_only)[i]),
                visit_name(#[trigger] listed(entries, from, depth, dirs_only)[j]),
            ),
        forall|j: int|
            0 <= j < listed(entries, from, depth, dirs_only).len() && is_marked_last(
                #[trigger] listed(entries, from, depth, dirs_only)[j],
            ) ==> j == listed(entries, from, depth, dirs_only).len() - 1 && listed(
                entries,
                from,
                depth,
                dirs_only,
            )[j] == visit_of(entries, entries.len() - 1, depth),
        from < entries.len() && is_listed(entries.last(), dirs_only) ==> listed(
            entries,
            from,
            depth,
            dirs_only,
        ).len() > 0 && listed(entries, from, depth, dirs_only).last() == visit_of(
            entries,
            entries.len() - 1,
            depth,
        ),
    decreases entries.len() - from,
{
    let all = listed(entries, from, depth, dirs_only);
    if from < entries.len() {
        let rest = listed(entries, from + 1, depth, dirs_only);
        let visit = visit_of(entries, from as int, depth);
        let shift: int = if is_listed(entries[from as int], dirs_only) {
            1
        } else {
            0
        };
        lemma_listed_in_order(entries, from + 1, depth, dirs_only);
        assert(all.len() == rest.len() + shift);
        assert forall|j: int| 0 <= j < all.len() implies is_visit_of_sibling(
            entries,
            from,
            depth,
            dirs_only,
            #[trigger] all[j],
        ) by {
            if j < shift {
                assert(all[j] == visit_of(entries, from as int, depth));
            } else {
                assert(all[j] == rest[j - shift]);
                assert(is_visit_of_sibling(entries, from + 1, depth, dirs_only, rest[j - shift]));
                let k = choose|k: int|
                    from + 1 <= k < entries.len() && is_listed(entries[k], dirs_only) && rest[j
                        - shift] == #[trigger] visit_of(entries, k, depth);
                assert(all[j] == visit_of(entries, k, depth));
            }
        }
        assert forall|i: int, j: int| 0 <= i < j < all.len() implies name_le(
            visit_name(#[trigger] all[i]),
            visit_name(#[trigger] all[j]),
        ) by {
            assert(all[j] == rest[j - shift]);
            if i < shift {
                assert(is_visit_of_sibling(entries, from + 1, depth, dirs_only, rest[j - shift]));
                let k = choose|k: int|
                    from + 1 <= k < entries.len() && is_listed(entries[k], dirs_only) && rest[j
                        - shift] == #[trigger] visit_of(entries, k, depth);
                assert(all[i] == visit);
                assert(name_le(entries[from as int].name, entries[k].name));
            } else {
                assert(all[i] == rest[i - shift]);
            }
        }
        assert forall|j: int| 0 <= j < all.len() && is_marked_last(#[trigger] all[j]) implies j
            == all.len() - 1 && all[j] == visit_of(entries, entries.len() - 1, depth) by {
            if j < shift {
                assert(all[j] == visit);
                assert(from == entries.len() - 1);
                assert(rest.len() == 0);
            } else {
                assert(all[j] == rest[j - shift]);
            }
        }
        if is_listed(entries.last(), dirs_only) {
            if from == entries.len() - 1 {
                assert(rest.len() == 0);
                assert(all.last() == visit);
            } else {
                assert(all.last() == rest.last());
            }
        }
    }
}

/// Of all that is reported of a directory that can be listed, the visits of its own
/// entries are those of its visible siblings that get a line. They stand in ascending
/// order of their names, whatever the order of the listing. Only the last of the visible
/// siblings is marked as last, and where it gets a line that line closes the level.
pub proof fn lemma_level_is_ordered_and_marked(
    disk: Disk,
    policy: Policy,
    path: Seq<Seq<char>>,
    depth: nat,
    raw: Seq<EntryView>,
)
    requires
        depth < policy.limit,
        disk(path) == Some(raw),
    ensures
        ({
            let level = at_level(subtree(disk, policy, path, depth), depth);
            let seen = visible(raw, policy.include_hidden);
            &&& level == listed(seen, 0, depth, policy.dirs_only)
            &&& forall|i: int, j: int|
                0 <= i < j < level.len() ==> name_le(
                    visit_name(#[trigger] level[i]),
                    visit_name(#[trigger] level[j]),
                )
            &&& forall|j: int|
                0 <= j < level.len() && is_marked_last(#[trigger] level[j]) ==> j == level.len() - 1
                    && level[j] == visit_of(seen, seen.len() - 1, depth)
            &&& seen.len() > 0 && is_listed(seen.last(), policy.dirs_only) ==> level.len() > 0
                && is_marked_last(level.last()) && visit_name(level.last()) == seen.last().name
        }),
{
    let seen = visible(raw, policy.include_hidden);
    crate::listing::lemma_visible_properties(raw, policy.include_hidden);
    lemma_siblings_at_level(disk, policy, path, seen, 0, depth);
    lemma_listed_in_order(seen, 0, depth, policy.dirs_only);
}

/// Two trees hold the same entries where each directory of the one can be listed if and
/// only if it can in the other, and then holds the same entries, each with a name of
/// its own, in whatever order.
pub open spec fn same_entries(one: Disk, other: Disk) -> bool {
    forall|path: Seq<Seq<char>>|
        match (#[trigger] one(path), other(path)) {
            (None, None) => true,
            (Some(a), Some(b)) => distinct_names(a) && a.to_multiset() == b.to_multiset(),
            _ => false,
        }
}

/// What is reported of a directory does not depend on the order in which any directory
/// hands out its entries.
pub proof fn lemma_subtree_ignores_listing_order(
    one: Disk,
    other: Disk,
    policy: Policy,
    path: Seq<Seq<char>>,
    depth: nat,
)
    requires
        same_entries(one, other),
    ensures
        subtree(one, policy, path, depth) == subtree(other, policy, path, depth),
    decreases policy.limit - depth, 1nat, 0nat,
{
    if depth < policy.limit {
        match (one(path), other(path)) {
            (Some(a), Some(b)) => {
                crate::listing::lemma_order_of_listing_is_immaterial(a, b, policy.include_hidden);
                lemma_siblings_ignore_listing_order(
                    one,
                    other,
                    policy,
                    path,
                    visible(a, policy.include_hidden),
                    0,
                    depth,
                );
            },
            _ => {},
        }
    }
}

/// What is reported of siblings does not depend on the order in which any directory
/// under them hands out its entries.
pub proof fn lemma_siblings_ignore_listing_order(
    one: Disk,
    other: Disk,
    policy: Policy,
    path: Seq<Seq<char>>,
    entries: Seq<EntryView>,
    from: nat,
    depth: nat,
)
    requires
        same_entries(one, other),
    ensures
        siblings(one, policy, path, entries, from, depth) == siblings(
            other,
            policy,
            path,
            entries,
            from,
            depth,
        ),
    decreases policy.limit - depth, 0nat, entries.len() - from,
{
    if depth < policy.limit && from < entries.len() {
        let entry = entries[from as int];
        lemma_subtree_ignores_listing_order(one, other, policy, path.push(entry.name), depth + 1);
        lemma_siblings_ignore_listing_order(one, other, policy, path, entries, from + 1, depth);
    }
}

/// All that is reported of a tree is the same whatever the order in which the
/// directories hand out their entries.
pub proof fn lemma_render_ignores_listing_order(one: Disk, other: Disk, policy: Policy)
    requires
        same_entries(one, other),
    ensures
        render(one, policy) == render(other, policy),
{
    lemma_subtree_ignores_listing_order(one, other, policy, Seq::empty(), 0);
}

} // verus!
