//! What a directory holds: its entries, put in order and with the hidden ones left out.

use vstd::prelude::*;
use crate::name::{hidden, is_hidden, name_le, name_lt, precedes};

verus! {

/// What kind of thing an entry is, as far as it could be found out.
#[derive(Clone, Copy, Debug, PartialEq, Eq, Structural)]
pub enum EntryKind {
    /// A directory: it is counted as one and may be descended into.
    Directory,
    /// Anything that is known not to be a directory.
    File,
    /// The kind could not be determined.
    Unknown,
}

/// One entry of a directory.
#[derive(Clone, Debug, PartialEq, Eq)]
pub struct Entry {
    pub name: String,
    pub kind: EntryKind,
}

/// An entry as the contracts see it.
pub struct EntryView {
    pub name: Seq<char>,
    pub kind: EntryKind,
}

impl View for Entry {
    type V = EntryView;

    open spec fn view(&self) -> EntryView {
        EntryView { name: self.name@, kind: self.kind }
    }
}

/// The entries of a listing as the contracts see them.
pub open spec fn entry_views(entries: Seq<Entry>) -> Seq<EntryView> {
    Seq::new(entries.len(), |i: int| entries[i]@)
}

/// The answer to a request for a listing as the contracts see it: the entries, or `None`
/// for a directory that could not be listed.
pub open spec fn listing_view(listing: Option<Vec<Entry>>) -> Option<Seq<EntryView>> {
    match listing {
        Some(raw) => Some(entry_views(raw@)),
        None => None,
    }
}

/// `sorted` with `e` put behind every entry that does not come after it.
pub open spec fn place(sorted: Seq<EntryView>, e: EntryView) -> Seq<EntryView>
    decreases sorted.len(),
{
    if sorted.len() == 0 {
        seq![e]
    } else if name_lt(e.name, sorted.last().name) {
        place(sorted.drop_last(), e).push(sorted.last())
    } else {
        sorted.push(e)
    }
}

/// The entries in ascending order of their names; entries of one name keep their order.
pub open spec fn by_name(entries: Seq<EntryView>) -> Seq<EntryView>
    decreases entries.len(),
{
    if entries.len() == 0 {
        Seq::empty()
    } else {
        place(by_name(entries.drop_last()), entries.last())
    }
}

/// An entry is shown unless it is hidden and hidden entries are left out.
pub open spec fn is_shown(e: EntryView, include_hidden: bool) -> bool {
    include_hidden || !is_hidden(e.name)
}

/// The entries that are shown, in the order in which they stand.
pub open spec fn shown(entries: Seq<EntryView>, include_hidden: bool) -> Seq<EntryView>
    decreases entries.len(),
{
    if entries.len() == 0 {
        Seq::empty()
    } else if is_shown(entries.last(), include_hidden) {
        shown(entries.drop_last(), include_hidden).push(entries.last())
    } else {
        shown(entries.drop_last(), include_hidden)
    }
}

/// The siblings of one level as they are walked: ordered first, then filtered.
pub open spec fn visible(raw: Seq<EntryView>, include_hidden: bool) -> Seq<EntryView> {
    shown(by_name(raw), include_hidden)
}

/// The entries of one name, in the order in which they stand.
pub open spec fn named(entries: Seq<EntryView>, name: Seq<char>) -> Seq<EntryView>
    decreases entries.len(),
{
    if entries.len() == 0 {
        Seq::empty()
    } else if entries.last().name == name {
        named(entries.drop_last(), name).push(entries.last())
    } else {
        named(entries.drop_last(), name)
    }
}

/// No entry stands before one whose name comes before its own.
pub open spec fn ascending(entries: Seq<EntryView>) -> bool {
    forall|i: int, j: int|
        0 <= i < j < entries.len() ==> name_le(#[trigger] entries[i].name, #[trigger] entries[j].name)
}

/// No two entries have the same name.
pub open spec fn distinct_names(entries: Seq<EntryView>) -> bool {
    forall|i: int, j: int|
        0 <= i < j < entries.len() ==> #[trigger] entries[i].name != #[trigger] entries[j].name
}

/// In an ascending listing, an entry is put where the entries that come after it begin.
pub proof fn lemma_place_is_insert(sorted: Seq<EntryView>, e: EntryView, pos: int)
    requires
        0 <= pos <= sorted.len(),
        forall|k: int| 0 <= k < pos ==> name_le(#[trigger] sorted[k].name, e.name),
        forall|k: int| pos <= k < sorted.len() ==> name_lt(e.name, #[trigger] sorted[k].name),
    ensures
        place(sorted, e) == sorted.insert(pos, e),
    decreases sorted.len(),
{
    if sorted.len() == 0 {
        assert(seq![e] =~= sorted.insert(pos, e));
    } else if pos == sorted.len() {
        assert(name_le(sorted[pos - 1].name, e.name));
        assert(sorted.push(e) =~= sorted.insert(pos, e));
    } else {
        let head = sorted.drop_last();
        assert(name_lt(e.name, sorted[sorted.len() - 1].name));
        assert forall|k: int| 0 <= k < pos implies name_le(#[trigger] head[k].name, e.name) by {
            assert(head[k] == sorted[k]);
        }
        assert forall|k: int| pos <= k < head.len() implies name_lt(
            e.name,
            #[trigger] head[k].name,
        ) by {
            assert(head[k] == sorted[k]);
        }
        lemma_place_is_insert(head, e, pos);
        assert(head.insert(pos, e).push(sorted.last()) =~= sorted.insert(pos, e));
    }
}

/// Where `e` goes in the ascending `sorted`: behind the last entry that does not come
/// after it.
fn insertion_point(sorted: &Vec<Entry>, e: &Entry) -> (pos: usize)
    requires
        ascending(entry_views(sorted@)),
    ensures
        pos <= sorted@.len(),
        entry_views(sorted@).insert(pos as int, e@) == place(entry_views(sorted@), e@),
{
    let ghost views = entry_views(sorted@);
    let mut low: usize = 0;
    let mut high: usize = sorted.len();
    while low < high
        invariant
            low <= high <= sorted@.len(),
            views == entry_views(sorted@),
            ascending(views),
            forall|k: int| 0 <= k < low ==> name_le(#[trigger] views[k].name, e@.name),
            forall|k: int| high <= k < views.len() ==> name_lt(e@.name, #[trigger] views[k].name),
        decreases high - low,
    {
        let middle = low + (high - low) / 2;
        if precedes(e.name.as_str(), sorted[middle].name.as_str()) {
            proof {
                assert forall|k: int| middle <= k < views.len() implies name_lt(
                    e@.name,
                    #[trigger] views[k].name,
                ) by {
                    if k > middle {
                        assert(name_le(views[middle as int].name, views[k].name));
                        crate::name::lemma_name_lt_le(
                            e@.name,
                            views[middle as int].name,
                            views[k].name,
                        );
                    }
                }
            }
            high = middle;
        } else {
            proof {
                assert forall|k: int| 0 <= k < middle + 1 implies name_le(
                    #[trigger] views[k].name,
                    e@.name,
                ) by {
                    if k < middle && name_lt(e@.name, views[k].name) {
                        assert(name_le(views[k].name, views[middle as int].name));
                        crate::name::lemma_name_lt_le(
                            e@.name,
                            views[k].name,
                            views[middle as int].name,
                        );
                    }
                }
            }
            low = middle + 1;
        }
    }
    proof {
        lemma_place_is_insert(views, e@, low as int);
    }
    low
}

/// Orders the entries of a listing by name.
pub fn sort_by_name(entries: Vec<Entry>) -> (sorted: Vec<Entry>)
    ensures
        entry_views(sorted@) == by_name(entry_views(entries@)),
        ascending(entry_views(sorted@)),
        entry_views(sorted@).to_multiset() == entry_views(entries@).to_multiset(),
{
    let ghost all = entry_views(entries@);
    let mut sorted: Vec<Entry> = Vec::new();
    for e in it: entries
        invariant
            it.seq() == entries@,
            all == entry_views(entries@),
            entry_views(sorted@) == by_name(all.take(it.index() as int)),
    {
        let ghost before = entry_views(sorted@);
        proof {
            lemma_by_name_ascending(all.take(it.index() as int));
        }
        let pos = insertion_point(&sorted, &e);
        sorted.insert(pos, e);
        proof {
            let k = it.index() as int;
            assert(entry_views(sorted@) =~= before.insert(pos as int, e@));
            assert(all.take(k + 1).drop_last() =~= all.take(k));
            assert(all.take(k + 1).last() == e@);
        }
    }
    proof {
        assert(all.take(entries@.len() as int) =~= all);
        lemma_by_name_ascending(all);
        lemma_by_name_permutes(all);
    }
    sorted
}

/// Orders the entries of a listing by name and leaves out the hidden ones unless they are asked for.
pub fn visible_entries(entries: Vec<Entry>, include_hidden: bool) -> (siblings: Vec<Entry>)
    ensures
        entry_views(siblings@) == visible(entry_views(entries@), include_hidden),
        ascending(entry_views(siblings@)),
        forall|i: int|
            0 <= i < siblings@.len() ==> is_shown(
                #[trigger] entry_views(siblings@)[i],
                include_hidden,
            ),
{
    proof {
        lemma_visible_properties(entry_views(entries@), include_hidden);
    }
    let sorted = sort_by_name(entries);
    let ghost all = entry_views(sorted@);
    let mut siblings: Vec<Entry> = Vec::new();
    for e in it: sorted
        invariant
            it.seq() == sorted@,
            all == entry_views(sorted@),
            entry_views(siblings@) == shown(all.take(it.index() as int), include_hidden),
    {
        let ghost before = entry_views(siblings@);
        proof {
            let k = it.index() as int;
            assert(all.take(k + 1).drop_last() =~= all.take(k));
            assert(all.take(k + 1).last() == e@);
        }
        if include_hidden || !hidden(e.name.as_str()) {
            siblings.push(e);
            assert(entry_views(siblings@) =~= before.push(e@));
        }
    }
    proof {
        assert(all.take(sorted@.len() as int) =~= all);
    }
    siblings
}

/// Putting an entry in its place keeps an ascending listing ascending.
pub proof fn lemma_place_ascending(sorted: Seq<EntryView>, e: EntryView)
    requires
        ascending(sorted),
    ensures
        ascending(place(sorted, e)),
        place(sorted, e).len() == sorted.len() + 1,
        forall|i: int|
            0 <= i < place(sorted, e).len() ==> #[trigger] place(sorted, e)[i] == e || sorted.contains(
                place(sorted, e)[i],
            ),
    decreases sorted.len(),
{
    let placed = place(sorted, e);
    if sorted.len() == 0 {
    } else if name_lt(e.name, sorted.last().name) {
        let head = sorted.drop_last();
        lemma_place_ascending(head, e);
        let inner = place(head, e);
        assert forall|i: int, j: int| 0 <= i < j < placed.len() implies name_le(
            #[trigger] placed[i].name,
            #[trigger] placed[j].name,
        ) by {
            if j == placed.len() - 1 {
                if inner[i] == e {
                    crate::name::lemma_name_lt_asymmetric(e.name, sorted.last().name);
                } else {
                    assert(head.contains(inner[i]));
                    let k = choose|k: int| 0 <= k < head.len() && head[k] == inner[i];
                    assert(sorted[k] == inner[i]);
                    assert(name_le(sorted[k].name, sorted[sorted.len() - 1].name));
                }
            } else {
                assert(name_le(inner[i].name, inner[j].name));
            }
        }
        assert forall|i: int| 0 <= i < placed.len() implies #[trigger] placed[i] == e
            || sorted.contains(placed[i]) by {
            if i == placed.len() - 1 {
                assert(sorted[sorted.len() - 1] == placed[i]);
            } else if inner[i] != e {
                assert(head.contains(inner[i]));
                let k = choose|k: int| 0 <= k < head.len() && head[k] == inner[i];
                assert(sorted[k] == inner[i]);
            }
        }
    } else {
        assert forall|i: int, j: int| 0 <= i < j < placed.len() implies name_le(
            #[trigger] placed[i].name,
            #[trigger] placed[j].name,
        ) by {
            if j == placed.len() - 1 {
                if i < sorted.len() - 1 {
                    assert(name_le(sorted[i].name, sorted[sorted.len() - 1].name));
                    if name_lt(e.name, sorted[i].name) {
                        crate::name::lemma_name_lt_le(e.name, sorted[i].name, sorted.last().name);
                    }
                }
            } else {
                assert(name_le(sorted[i].name, sorted[j].name));
            }
        }
        assert forall|i: int| 0 <= i < placed.len() implies #[trigger] placed[i] == e
            || sorted.contains(placed[i]) by {
            if i < sorted.len() {
                assert(sorted[i] == placed[i]);
            }
        }
    }
}

/// Ordering a listing gives an ascending one.
pub proof fn lemma_by_name_ascending(entries: Seq<EntryView>)
    ensures
        ascending(by_name(entries)),
        by_name(entries).len() == entries.len(),
    decreases entries.len(),
{
    if entries.len() > 0 {
        lemma_by_name_ascending(entries.drop_last());
        lemma_place_ascending(by_name(entries.drop_last()), entries.last());
    }
}

/// Putting an entry in its place adds that entry and nothing else.
pub proof fn lemma_place_permutes(sorted: Seq<EntryView>, e: EntryView)
    ensures
        place(sorted, e).to_multiset() == sorted.to_multiset().insert(e),
    decreases sorted.len(),
{
    broadcast use vstd::seq_lib::group_to_multiset_ensures;

    if sorted.len() == 0 {
        assert(sorted =~= Seq::empty());
        assert(seq![e] =~= Seq::<EntryView>::empty().push(e));
    } else if name_lt(e.name, sorted.last().name) {
        let head = sorted.drop_last();
        lemma_place_permutes(head, e);
        assert(sorted =~= head.push(sorted.last()));
        assert(place(sorted, e).to_multiset() =~= sorted.to_multiset().insert(e));
    } else {
    }
}

/// Ordering a listing neither drops an entry nor adds one.
pub proof fn lemma_by_name_permutes(entries: Seq<EntryView>)
    ensures
        by_name(entries).to_multiset() == entries.to_multiset(),
    decreases entries.len(),
{
    broadcast use vstd::seq_lib::group_to_multiset_ensures;

    if entries.len() == 0 {
        assert(entries =~= Seq::empty());
    } else {
        lemma_by_name_permutes(entries.drop_last());
        lemma_place_permutes(by_name(entries.drop_last()), entries.last());
        assert(entries =~= entries.drop_last().push(entries.last()));
    }
}

/// An entry that is put in its place comes behind the entries of its own name, and the
/// entries of every name keep their order.
pub proof fn lemma_place_is_stable(sorted: Seq<EntryView>, e: EntryView, name: Seq<char>)
    ensures
        named(place(sorted, e), name) == if e.name == name {
            named(sorted, name).push(e)
        } else {
            named(sorted, name)
        },
    decreases sorted.len(),
{
    if sorted.len() == 0 {
        let one = seq![e];
        assert(one.drop_last() =~= sorted);
        assert(one.last() == e);
    } else if name_lt(e.name, sorted.last().name) {
        let head = sorted.drop_last();
        let placed = place(head, e).push(sorted.last());
        lemma_place_is_stable(head, e, name);
        crate::name::lemma_name_lt_irreflexive(e.name);
        assert(placed.drop_last() =~= place(head, e));
        assert(placed.last() == sorted.last());
    } else {
        let placed = sorted.push(e);
        assert(placed.drop_last() =~= sorted);
        assert(placed.last() == e);
    }
}

/// Ordering a listing is stable: the entries of one name stand in the order in which
/// the listing held them.
pub proof fn lemma_by_name_is_stable(entries: Seq<EntryView>, name: Seq<char>)
    ensures
        named(by_name(entries), name) == named(entries, name),
    decreases entries.len(),
{
    if entries.len() > 0 {
        lemma_by_name_is_stable(entries.drop_last(), name);
        lemma_place_is_stable(by_name(entries.drop_last()), entries.last(), name);
    }
}

/// Filtering keeps the order, drops every hidden entry unless hidden entries are asked
/// for, and then drops nothing.
pub proof fn lemma_shown_properties(entries: Seq<EntryView>, include_hidden: bool)
    ensures
        forall|i: int|
            0 <= i < shown(entries, include_hidden).len() ==> is_shown(
                #[trigger] shown(entries, include_hidden)[i],
                include_hidden,
            ),
        forall|i: int|
            0 <= i < shown(entries, include_hidden).len() ==> entries.contains(
                #[trigger] shown(entries, include_hidden)[i],
            ),
        forall|i: int|
            0 <= i < entries.len() && is_shown(entries[i], include_hidden) ==> shown(
                entries,
                include_hidden,
            ).contains(#[trigger] entries[i]),
        shown(entries, include_hidden).len() <= entries.len(),
        ascending(entries) ==> ascending(shown(entries, include_hidden)),
        include_hidden ==> shown(entries, include_hidden) == entries,
    decreases entries.len(),
{
    let kept = shown(entries, include_hidden);
    if entries.len() > 0 {
        let head = entries.drop_last();
        let inner = shown(head, include_hidden);
        lemma_shown_properties(head, include_hidden);
        assert forall|i: int| 0 <= i < kept.len() implies entries.contains(#[trigger] kept[i]) by {
            if i < inner.len() {
                assert(head.contains(inner[i]));
                let k = choose|k: int| 0 <= k < head.len() && head[k] == inner[i];
                assert(entries[k] == kept[i]);
            } else {
                assert(entries[entries.len() - 1] == kept[i]);
            }
        }
        assert forall|i: int|
            0 <= i < entries.len() && is_shown(entries[i], include_hidden) implies kept.contains(
            #[trigger] entries[i],
        ) by {
            if i < head.len() {
                assert(head[i] == entries[i]);
                assert(inner.contains(head[i]));
                let k = choose|k: int| 0 <= k < inner.len() && inner[k] == head[i];
                assert(kept[k] == entries[i]);
            } else {
                assert(kept[kept.len() - 1] == entries[i]);
            }
        }
        if ascending(entries) {
            assert(ascending(head)) by {
                assert forall|i: int, j: int| 0 <= i < j < head.len() implies name_le(
                    #[trigger] head[i].name,
                    #[trigger] head[j].name,
                ) by {
                    assert(name_le(entries[i].name, entries[j].name));
                }
            }
            assert forall|i: int, j: int| 0 <= i < j < kept.len() implies name_le(
                #[trigger] kept[i].name,
                #[trigger] kept[j].name,
            ) by {
                if j < inner.len() {
                    assert(name_le(inner[i].name, inner[j].name));
                } else {
                    assert(head.contains(inner[i]));
                    let k = choose|k: int| 0 <= k < head.len() && head[k] == inner[i];
                    assert(name_le(entries[k].name, entries[entries.len() - 1].name));
                }
            }
        }
        if include_hidden {
            assert(kept =~= entries);
        }
    } else {
        assert(kept =~= entries);
    }
}

/// Entries with names of their own stand in one ascending order only.
pub proof fn lemma_ascending_is_unique(x: Seq<EntryView>, y: Seq<EntryView>)
    requires
        ascending(x),
        ascending(y),
        distinct_names(x),
        x.to_multiset() == y.to_multiset(),
    ensures
        x == y,
    decreases x.len(),
{
    broadcast use vstd::multiset::group_multiset_axioms;
    broadcast use vstd::seq_lib::group_to_multiset_ensures;

    x.to_multiset_ensures();
    y.to_multiset_ensures();
    assert(x.len() == y.len());
    if x.len() > 0 {
        let last_x = x.last();
        let last_y = y.last();
        assert(x.contains(last_x));
        assert(y.contains(last_y));
        assert(y.to_multiset().count(last_x) > 0);
        assert(x.to_multiset().count(last_y) > 0);
        let j = choose|j: int| 0 <= j < y.len() && y[j] == last_x;
        let i = choose|i: int| 0 <= i < x.len() && x[i] == last_y;
        if i < x.len() - 1 {
            assert(name_le(x[i].name, x[x.len() - 1].name));
        }
        if j < y.len() - 1 {
            assert(name_le(y[j].name, y[y.len() - 1].name));
        }
        crate::name::lemma_name_lt_irreflexive(last_x.name);
        crate::name::lemma_name_lt_total(last_x.name, last_y.name);
        assert(last_x.name == last_y.name);
        assert(i == x.len() - 1);
        assert(last_x == last_y);
        let head_x = x.drop_last();
        let head_y = y.drop_last();
        assert(x =~= head_x.push(last_x));
        assert(y =~= head_y.push(last_y));
        assert(head_x.to_multiset() =~= x.to_multiset().remove(last_x));
        assert(head_y.to_multiset() =~= y.to_multiset().remove(last_y));
        assert(ascending(head_x)) by {
            assert forall|a: int, b: int| 0 <= a < b < head_x.len() implies name_le(
                #[trigger] head_x[a].name,
                #[trigger] head_x[b].name,
            ) by {
                assert(name_le(x[a].name, x[b].name));
            }
        }
        assert(ascending(head_y)) by {
            assert forall|a: int, b: int| 0 <= a < b < head_y.len() implies name_le(
                #[trigger] head_y[a].name,
                #[trigger] head_y[b].name,
            ) by {
                assert(name_le(y[a].name, y[b].name));
            }
        }
        assert(distinct_names(head_x)) by {
            assert forall|a: int, b: int| 0 <= a < b < head_x.len() implies #[trigger] head_x[a].name
                != #[trigger] head_x[b].name by {
                assert(x[a].name != x[b].name);
            }
        }
        lemma_ascending_is_unique(head_x, head_y);
        assert(x =~= y);
    } else {
        assert(x =~= y);
    }
}

/// A listing with the same entries in another order has names of its own where this one has.
pub proof fn lemma_distinct_names_of_same_entries(a: Seq<EntryView>, b: Seq<EntryView>)
    requires
        distinct_names(a),
        a.to_multiset() == b.to_multiset(),
    ensures
        distinct_names(b),
{
    broadcast use vstd::multiset::group_multiset_axioms;
    broadcast use vstd::seq_lib::group_to_multiset_ensures;

    assert(a.no_duplicates()) by {
        assert forall|i: int, j: int| 0 <= i < a.len() && 0 <= j < a.len() && i != j implies a[i]
            != a[j] by {
            if i < j {
                assert(a[i].name != a[j].name);
            } else {
                assert(a[j].name != a[i].name);
            }
        }
    }
    a.lemma_multiset_has_no_duplicates();
    b.lemma_multiset_has_no_duplicates_conv();
    assert forall|i: int, j: int| 0 <= i < j < b.len() implies #[trigger] b[i].name
        != #[trigger] b[j].name by {
        assert(b.contains(b[i]));
        assert(b.contains(b[j]));
        assert(a.to_multiset().count(b[i]) > 0);
        assert(a.to_multiset().count(b[j]) > 0);
        assert(a.contains(b[i]));
        assert(a.contains(b[j]));
        let p = choose|p: int| 0 <= p < a.len() && a[p] == b[i];
        let q = choose|q: int| 0 <= q < a.len() && a[q] == b[j];
        assert(b[i] != b[j]);
        if p < q {
            assert(a[p].name != a[q].name);
        } else {
            assert(a[q].name != a[p].name);
        }
    }
}

/// The order in which a directory hands out its entries does not matter: two listings of
/// the same entries, each with a name of its own, give the same siblings.
pub proof fn lemma_order_of_listing_is_immaterial(
    a: Seq<EntryView>,
    b: Seq<EntryView>,
    include_hidden: bool,
)
    requires
        distinct_names(a),
        a.to_multiset() == b.to_multiset(),
    ensures
        by_name(a) == by_name(b),
        visible(a, include_hidden) == visible(b, include_hidden),
{
    lemma_by_name_ascending(a);
    lemma_by_name_ascending(b);
    lemma_by_name_permutes(a);
    lemma_by_name_permutes(b);
    lemma_distinct_names_of_same_entries(a, by_name(a));
    lemma_ascending_is_unique(by_name(a), by_name(b));
}

/// The siblings of a level stand in ascending order of their names, each is an entry of
/// the listing, none is hidden unless hidden entries are asked for, and then none is missing.
pub proof fn lemma_visible_properties(raw: Seq<EntryView>, include_hidden: bool)
    ensures
        ascending(visible(raw, include_hidden)),
        forall|i: int|
            0 <= i < visible(raw, include_hidden).len() ==> is_shown(
                #[trigger] visible(raw, include_hidden)[i],
                include_hidden,
            ),
        forall|i: int|
            0 <= i < visible(raw, include_hidden).len() ==> raw.contains(
                #[trigger] visible(raw, include_hidden)[i],
            ),
        forall|i: int|
            0 <= i < raw.len() && is_shown(raw[i], include_hidden) ==> visible(
                raw,
                include_hidden,
            ).contains(#[trigger] raw[i]),
        include_hidden ==> visible(raw, include_hidden) == by_name(raw),
{
    broadcast use vstd::multiset::group_multiset_axioms;
    broadcast use vstd::seq_lib::group_to_multiset_ensures;

    let ordered = by_name(raw);
    let kept = visible(raw, include_hidden);
    lemma_by_name_ascending(raw);
    lemma_by_name_permutes(raw);
    lemma_shown_properties(ordered, include_hidden);
    assert forall|i: int| 0 <= i < kept.len() implies raw.contains(#[trigger] kept[i]) by {
        assert(ordered.contains(kept[i]));
        assert(ordered.to_multiset().count(kept[i]) > 0);
    }
    assert forall|i: int| 0 <= i < raw.len() && is_shown(raw[i], include_hidden) implies kept.contains(
        #[trigger] raw[i],
    ) by {
        assert(raw.contains(raw[i]));
        assert(raw.to_multiset().count(raw[i]) > 0);
        assert(ordered.contains(raw[i]));
        let k = choose|k: int| 0 <= k < ordered.len() && ordered[k] == raw[i];
        assert(kept.contains(ordered[k]));
    }
}

} // verus!
