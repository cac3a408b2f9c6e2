use dtree::name::{hidden, precedes};

#[test]
fn names_with_a_leading_dot_are_hidden() {
    assert!(hidden(".git"));
    assert!(hidden("."));
    assert!(hidden(".."));
    assert!(hidden(".a.b"));
}

#[test]
fn other_names_are_not_hidden() {
    assert!(!hidden(""));
    assert!(!hidden("a"));
    assert!(!hidden("a.txt"));
    assert!(!hidden("a."));
    assert!(!hidden(" .a"));
    assert!(!hidden("é.x"));
}

#[test]
fn names_are_ordered_by_code_point() {
    assert!(precedes("a", "b"));
    assert!(!precedes("b", "a"));
    assert!(precedes("B", "a"));
    assert!(precedes("Z", "a"));
    assert!(precedes("a10", "a2"));
    assert!(precedes(".z", "a"));
    assert!(precedes("a", "é"));
    assert!(precedes("z", "é"));
    assert!(precedes("é", "日"));
    assert!(!precedes("日", "é"));
}

#[test]
fn a_proper_prefix_comes_first() {
    assert!(precedes("", "a"));
    assert!(precedes("a", "aa"));
    assert!(precedes("a", "a.txt"));
    assert!(!precedes("a.txt", "a"));
    assert!(!precedes("a", ""));
}

#[test]
fn no_name_precedes_itself() {
    assert!(!precedes("", ""));
    assert!(!precedes("a", "a"));
    assert!(!precedes("src", "src"));
    assert!(!precedes("日本", "日本"));
}

#[test]
fn order_agrees_with_the_order_of_strings() {
    let names = ["", ".", "..", ".a", "A", "a", "a.txt", "ab", "b", "z.txt", "é", "日本", "\u{10FFFF}"];
    for a in names {
        for b in names {
            assert_eq!(precedes(a, b), a < b, "{:?} against {:?}", a, b);
        }
    }
}
