use dtree::listing::{sort_by_name, visible_entries, Entry, EntryKind};

fn dir(name: &str) -> Entry {
    Entry { name: name.to_string(), kind: EntryKind::Directory }
}

fn file(name: &str) -> Entry {
    Entry { name: name.to_string(), kind: EntryKind::File }
}

fn unknown(name: &str) -> Entry {
    Entry { name: name.to_string(), kind: EntryKind::Unknown }
}

fn names(entries: &[Entry]) -> Vec<&str> {
    entries.iter().map(|e| e.name.as_str()).collect()
}

#[test]
fn sorting_puts_names_in_ascending_order() {
    let sorted = sort_by_name(vec![file("z.txt"), dir("b"), dir("a"), file("m")]);
    assert_eq!(sorted, vec![dir("a"), dir("b"), file("m"), file("z.txt")]);
}

#[test]
fn sorting_an_empty_listing_gives_an_empty_one() {
    assert_eq!(sort_by_name(vec![]), vec![]);
}

#[test]
fn sorting_keeps_every_entry_with_its_kind() {
    let sorted = sort_by_name(vec![unknown("q"), file("b"), dir("x"), file("a")]);
    assert_eq!(sorted, vec![file("a"), file("b"), unknown("q"), dir("x")]);
}

#[test]
fn sorting_goes_by_code_point_not_by_letter() {
    let sorted = sort_by_name(vec![file("b"), file("a"), file("B"), file("é"), file("_"), file("10"), file("9")]);
    assert_eq!(names(&sorted), vec!["10", "9", "B", "_", "a", "b", "é"]);
}

#[test]
fn sorting_keeps_the_order_of_entries_of_one_name() {
    let sorted = sort_by_name(vec![file("n"), dir("a"), dir("n"), unknown("n"), file("a")]);
    assert_eq!(sorted, vec![dir("a"), file("a"), file("n"), dir("n"), unknown("n")]);
}

#[test]
fn sorting_does_not_depend_on_the_order_of_the_listing() {
    let expected = vec![dir("a"), dir("b"), file("c"), file("d")];
    let orders = [
        vec![dir("a"), dir("b"), file("c"), file("d")],
        vec![file("d"), file("c"), dir("b"), dir("a")],
        vec![dir("b"), file("d"), dir("a"), file("c")],
        vec![file("c"), dir("a"), file("d"), dir("b")],
    ];
    for order in orders {
        assert_eq!(sort_by_name(order), expected);
    }
}

#[test]
fn hidden_entries_are_left_out() {
    let siblings = visible_entries(vec![file("b"), file(".hidden"), dir(".git"), dir("a")], false);
    assert_eq!(siblings, vec![dir("a"), file("b")]);
}

#[test]
fn hidden_entries_are_shown_on_demand_in_their_place() {
    let siblings = visible_entries(vec![file("b"), file(".hidden"), dir(".git"), dir("a")], true);
    assert_eq!(siblings, vec![dir(".git"), file(".hidden"), dir("a"), file("b")]);
}

#[test]
fn a_listing_of_hidden_entries_only_leaves_nothing() {
    assert_eq!(visible_entries(vec![file(".a"), dir(".b")], false), vec![]);
    assert_eq!(visible_entries(vec![], false), vec![]);
    assert_eq!(visible_entries(vec![], true), vec![]);
}

#[test]
fn entries_of_unknown_kind_stay_among_the_siblings() {
    let siblings = visible_entries(vec![unknown("u"), file("a")], false);
    assert_eq!(siblings, vec![file("a"), unknown("u")]);
}
