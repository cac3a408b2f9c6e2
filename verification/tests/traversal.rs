use dtree::Args;
use dtree::listing::{Entry, EntryKind};
use dtree::record::Record;
use dtree::walker::Walker;

fn dir(name: &str) -> Entry {
    Entry { name: name.to_string(), kind: EntryKind::Directory }
}

fn file(name: &str) -> Entry {
    Entry { name: name.to_string(), kind: EntryKind::File }
}

fn unknown(name: &str) -> Entry {
    Entry { name: name.to_string(), kind: EntryKind::Unknown }
}

/// A tree to walk: for each directory that can be listed, its path and its entries.
struct Tree {
    listings: Vec<(Vec<&'static str>, Vec<Entry>)>,
}

impl Tree {
    fn list(&self, path: &[String]) -> Option<Vec<Entry>> {
        self.listings
            .iter()
            .find(|(at, _)| at.len() == path.len() && at.iter().zip(path).all(|(a, b)| *a == b.as_str()))
            .map(|(_, entries)| entries.clone())
    }
}

/// What a walk left behind: the lines printed, the diagnostics, the footer, the requests made.
struct Outcome {
    lines: Vec<String>,
    unreadable: Vec<Vec<String>>,
    untyped: Vec<String>,
    footer: String,
    directories: usize,
    files: usize,
    requests: Vec<Vec<String>>,
    records: Vec<Record>,
}

fn walk(tree: &Tree, depth: usize, dirs_only: bool, include_hidden: bool) -> Outcome {
    let args = Args::with_presence("root", true, depth, dirs_only, include_hidden).unwrap();
    let mut walker = Walker::new(&args);
    let mut requests = Vec::new();
    while let Some(path) = walker.request() {
        assert!(!walker.is_finished());
        requests.push(path.clone());
        walker.resume(tree.list(&path));
    }
    assert!(walker.is_finished());
    let mut lines = Vec::new();
    let mut unreadable = Vec::new();
    let mut untyped = Vec::new();
    for record in walker.transcript() {
        match record.line() {
            Some(line) => lines.push(line),
            None => match record {
                Record::Unreadable { path } => unreadable.push(path.clone()),
                Record::Untyped { name } => untyped.push(name.clone()),
                _ => panic!("a record that prints a line gave none"),
            },
        }
    }
    Outcome {
        lines,
        unreadable,
        untyped,
        footer: walker.footer(),
        directories: walker.directory_count(),
        files: walker.file_count(),
        requests,
        records: walker.transcript().clone(),
    }
}

fn small_tree() -> Tree {
    Tree {
        listings: vec![
            (vec![], vec![file("z.txt"), dir("b"), dir("a")]),
            (vec!["a"], vec![file("x.txt")]),
            (vec!["b"], vec![]),
        ],
    }
}

fn nested_tree() -> Tree {
    Tree {
        listings: vec![
            (vec![], vec![dir("src"), file("README.md"), dir(".git"), file(".gitignore"), dir("docs")]),
            (vec!["src"], vec![file("main.rs"), dir("util"), file("lib.rs")]),
            (vec!["src", "util"], vec![file("mod.rs"), dir("deep")]),
            (vec!["src", "util", "deep"], vec![file("leaf.rs")]),
            (vec![".git"], vec![file("HEAD"), dir("objects")]),
            (vec![".git", "objects"], vec![]),
            (vec!["docs"], vec![file("guide.md"), file(".draft")]),
        ],
    }
}

#[test]
fn small_tree_with_default_settings() {
    let outcome = walk(&small_tree(), 100, false, false);
    assert_eq!(
        outcome.lines,
        vec![".", "├── a", "│   └── x.txt", "├── b", "└── z.txt"]
    );
    assert_eq!(outcome.directories, 3);
    assert_eq!(outcome.files, 2);
    assert_eq!(outcome.footer, "\n3 directories, 2 files");
    assert!(outcome.unreadable.is_empty());
    assert!(outcome.untyped.is_empty());
}

#[test]
fn small_tree_at_depth_two_is_walked_whole() {
    let outcome = walk(&small_tree(), 2, false, false);
    assert_eq!(
        outcome.lines,
        vec![".", "├── a", "│   └── x.txt", "├── b", "└── z.txt"]
    );
    assert_eq!((outcome.directories, outcome.files), (3, 2));
}

#[test]
fn small_tree_records() {
    let outcome = walk(&small_tree(), 100, false, false);
    assert_eq!(
        outcome.records,
        vec![
            Record::Root,
            Record::Visit { depth: 0, last: false, name: "a".to_string(), directory: true },
            Record::Visit { depth: 1, last: true, name: "x.txt".to_string(), directory: false },
            Record::Visit { depth: 0, last: false, name: "b".to_string(), directory: true },
            Record::Visit { depth: 0, last: true, name: "z.txt".to_string(), directory: false },
        ]
    );
}

#[test]
fn directories_are_asked_for_in_the_order_of_the_walk() {
    let outcome = walk(&small_tree(), 100, false, false);
    let expected: Vec<Vec<String>> =
        vec![vec![], vec!["a".to_string()], vec!["b".to_string()]];
    assert_eq!(outcome.requests, expected);
}

#[test]
fn depth_one_shows_the_first_level_only() {
    let outcome = walk(&nested_tree(), 1, false, false);
    assert_eq!(outcome.lines, vec![".", "├── README.md", "├── docs", "└── src"]);
    assert_eq!(outcome.directories, 3);
    assert_eq!(outcome.files, 1);
    assert_eq!(outcome.footer, "\n3 directories, 1 files");
    let expected: Vec<Vec<String>> = vec![vec![]];
    assert_eq!(outcome.requests, expected);
}

#[test]
fn depth_zero_is_walked_as_depth_one() {
    let at_zero = walk(&nested_tree(), 0, false, false);
    let at_one = walk(&nested_tree(), 1, false, false);
    assert_eq!(at_zero.lines, at_one.lines);
    assert_eq!(at_zero.footer, at_one.footer);
}

#[test]
fn depth_two_stops_below_the_second_level() {
    let outcome = walk(&nested_tree(), 2, false, false);
    assert_eq!(
        outcome.lines,
        vec![
            ".",
            "├── README.md",
            "├── docs",
            "│   └── guide.md",
            "└── src",
            "│   ├── lib.rs",
            "│   ├── main.rs",
            "│   └── util",
        ]
    );
    assert_eq!(outcome.directories, 4);
    assert_eq!(outcome.files, 4);
}

#[test]
fn nothing_at_the_depth_limit_or_below_is_reported() {
    for limit in 1..6usize {
        let outcome = walk(&nested_tree(), limit, false, true);
        for record in &outcome.records {
            if let Record::Visit { depth, .. } = record {
                assert!(*depth < limit);
            }
        }
        for path in &outcome.requests {
            assert!(path.len() < limit);
        }
    }
}

#[test]
fn whole_nested_tree() {
    let outcome = walk(&nested_tree(), 100, false, false);
    assert_eq!(
        outcome.lines,
        vec![
            ".",
            "├── README.md",
            "├── docs",
            "│   └── guide.md",
            "└── src",
            "│   ├── lib.rs",
            "│   ├── main.rs",
            "│   └── util",
            "│   │   ├── deep",
            "│   │   │   └── leaf.rs",
            "│   │   └── mod.rs",
        ]
    );
    assert_eq!(outcome.directories, 5);
    assert_eq!(outcome.files, 6);
    assert_eq!(outcome.footer, "\n5 directories, 6 files");
}

#[test]
fn hidden_entries_are_neither_shown_nor_counted_nor_entered() {
    let outcome = walk(&nested_tree(), 100, false, false);
    for record in &outcome.records {
        if let Record::Visit { name, .. } = record {
            assert!(!name.starts_with('.'));
        }
    }
    for path in &outcome.requests {
        assert!(path.iter().all(|name| !name.starts_with('.')));
    }
}

#[test]
fn hidden_entries_are_shown_on_demand() {
    let outcome = walk(&nested_tree(), 100, false, true);
    assert_eq!(
        outcome.lines,
        vec![
            ".",
            "├── .git",
            "│   ├── HEAD",
            "│   └── objects",
            "├── .gitignore",
            "├── README.md",
            "├── docs",
            "│   ├── .draft",
            "│   └── guide.md",
            "└── src",
            "│   ├── lib.rs",
            "│   ├── main.rs",
            "│   └── util",
            "│   │   ├── deep",
            "│   │   │   └── leaf.rs",
            "│   │   └── mod.rs",
        ]
    );
    assert_eq!(outcome.directories, 7);
    assert_eq!(outcome.files, 9);
}

#[test]
fn directories_only_shows_and_counts_no_file() {
    let outcome = walk(&nested_tree(), 100, true, false);
    assert_eq!(
        outcome.lines,
        vec![".", "├── docs", "└── src", "│   └── util", "│   │   ├── deep"]
    );
    assert_eq!(outcome.directories, 5);
    assert_eq!(outcome.files, 0);
    assert_eq!(outcome.footer, "\n5 directories, 0 files");
    for record in &outcome.records {
        if let Record::Visit { directory, .. } = record {
            assert!(*directory);
        }
    }
}

#[test]
fn directories_only_counts_the_directories_as_before() {
    for hidden in [false, true] {
        for limit in 1..5usize {
            let all = walk(&nested_tree(), limit, false, hidden);
            let only = walk(&nested_tree(), limit, true, hidden);
            assert_eq!(all.directories, only.directories);
            assert_eq!(all.requests, only.requests);
            let kept: Vec<Record> = all
                .records
                .iter()
                .filter(|r| !matches!(r, Record::Visit { directory: false, .. }))
                .cloned()
                .collect();
            assert_eq!(only.records, kept);
        }
    }
}

#[test]
fn last_visible_sibling_is_marked_though_hidden_ones_sort_after_it() {
    let tree = Tree {
        listings: vec![(vec![], vec![file("b"), file("a"), file("\u{7f}trailing"), file(".x")])],
    };
    let outcome = walk(&tree, 100, false, false);
    assert_eq!(outcome.lines, vec![".", "├── a", "├── b", "└── \u{7f}trailing"]);

    let tree = Tree {
        listings: vec![(vec![], vec![file("-b"), file("-a"), file(".z"), file(".y")])],
    };
    let outcome = walk(&tree, 100, false, false);
    assert_eq!(outcome.lines, vec![".", "├── -a", "└── -b"]);
    assert_eq!(outcome.files, 2);
    let outcome = walk(&tree, 100, false, true);
    assert_eq!(outcome.lines, vec![".", "├── -a", "├── -b", "├── .y", "└── .z"]);
    assert_eq!(outcome.files, 4);
}

#[test]
fn exactly_one_sibling_of_a_level_is_marked_last() {
    let outcome = walk(&nested_tree(), 100, false, true);
    let top: Vec<&Record> = outcome
        .records
        .iter()
        .filter(|r| matches!(r, Record::Visit { depth: 0, .. }))
        .collect();
    let marked: Vec<&&Record> =
        top.iter().filter(|r| matches!(r, Record::Visit { last: true, .. })).collect();
    assert_eq!(marked.len(), 1);
    assert_eq!(
        **marked[0],
        Record::Visit { depth: 0, last: true, name: "src".to_string(), directory: true }
    );
    assert_eq!(top.last().unwrap(), marked[0]);
}

#[test]
fn siblings_are_reported_in_ascending_order_whatever_the_listing() {
    let shuffled = Tree {
        listings: vec![
            (vec![], vec![dir("a"), file("z.txt"), dir("b")]),
            (vec!["a"], vec![file("x.txt")]),
            (vec!["b"], vec![]),
        ],
    };
    let one = walk(&small_tree(), 100, false, false);
    let other = walk(&shuffled, 100, false, false);
    assert_eq!(one.records, other.records);
    assert_eq!(one.lines, other.lines);
}

#[test]
fn unreadable_directory_is_reported_and_the_walk_goes_on() {
    let tree = Tree {
        listings: vec![
            (vec![], vec![dir("locked"), dir("open"), file("z")]),
            (vec!["open"], vec![file("inside")]),
        ],
    };
    let outcome = walk(&tree, 100, false, false);
    assert_eq!(
        outcome.lines,
        vec![".", "├── locked", "├── open", "│   └── inside", "└── z"]
    );
    assert_eq!(outcome.unreadable, vec![vec!["locked".to_string()]]);
    assert_eq!(outcome.directories, 3);
    assert_eq!(outcome.files, 2);
    assert_eq!(
        outcome.records[2],
        Record::Unreadable { path: vec!["locked".to_string()] }
    );
}

#[test]
fn unreadable_root_leaves_the_root_alone() {
    let tree = Tree { listings: vec![] };
    let outcome = walk(&tree, 100, false, false);
    assert_eq!(outcome.lines, vec!["."]);
    let expected: Vec<Vec<String>> = vec![vec![]];
    assert_eq!(outcome.unreadable, expected);
    assert_eq!(outcome.directories, 1);
    assert_eq!(outcome.files, 0);
    assert_eq!(outcome.footer, "\n1 directories, 0 files");
}

#[test]
fn unreadable_directory_deep_down_is_named_by_its_whole_path() {
    let tree = Tree {
        listings: vec![
            (vec![], vec![dir("a")]),
            (vec!["a"], vec![dir("b")]),
            (vec!["a", "b"], vec![dir("c")]),
        ],
    };
    let outcome = walk(&tree, 100, false, false);
    assert_eq!(outcome.lines, vec![".", "└── a", "│   └── b", "│   │   └── c"]);
    assert_eq!(
        outcome.unreadable,
        vec![vec!["a".to_string(), "b".to_string(), "c".to_string()]]
    );
    assert_eq!(outcome.directories, 4);
}

#[test]
fn entry_of_unknown_kind_is_reported_and_skipped() {
    let tree = Tree {
        listings: vec![(vec![], vec![file("a"), unknown("odd"), dir("d")]), (vec!["d"], vec![])],
    };
    let outcome = walk(&tree, 100, false, false);
    assert_eq!(outcome.lines, vec![".", "├── a", "├── d"]);
    assert_eq!(outcome.untyped, vec!["odd".to_string()]);
    assert_eq!(outcome.directories, 2);
    assert_eq!(outcome.files, 1);
    let expected: Vec<Vec<String>> = vec![vec![], vec!["d".to_string()]];
    assert_eq!(outcome.requests, expected);
}

#[test]
fn hidden_entry_of_unknown_kind_is_passed_over_in_silence() {
    let tree = Tree { listings: vec![(vec![], vec![unknown(".odd"), file("a")])] };
    let outcome = walk(&tree, 100, false, false);
    assert_eq!(outcome.lines, vec![".", "└── a"]);
    assert!(outcome.untyped.is_empty());
    let outcome = walk(&tree, 100, false, true);
    assert_eq!(outcome.untyped, vec![".odd".to_string()]);
}

#[test]
fn empty_root() {
    let tree = Tree { listings: vec![(vec![], vec![])] };
    let outcome = walk(&tree, 100, false, false);
    assert_eq!(outcome.lines, vec!["."]);
    assert_eq!(outcome.directories, 1);
    assert_eq!(outcome.files, 0);
    assert!(outcome.unreadable.is_empty());
}

#[test]
fn directory_count_is_never_below_one() {
    for tree in [small_tree(), nested_tree(), Tree { listings: vec![] }] {
        for limit in 0..4usize {
            for dirs_only in [false, true] {
                for hidden in [false, true] {
                    let outcome = walk(&tree, limit, dirs_only, hidden);
                    assert!(outcome.directories >= 1);
                    assert_eq!(outcome.records[0], Record::Root);
                    assert_eq!(outcome.lines[0], ".");
                }
            }
        }
    }
}

#[test]
fn counts_are_those_of_the_transcript() {
    let outcome = walk(&nested_tree(), 3, false, true);
    let directories = outcome
        .records
        .iter()
        .filter(|r| matches!(r, Record::Root | Record::Visit { directory: true, .. }))
        .count();
    let files = outcome
        .records
        .iter()
        .filter(|r| matches!(r, Record::Visit { directory: false, .. }))
        .count();
    assert_eq!(outcome.directories, directories);
    assert_eq!(outcome.files, files);
}

#[test]
fn new_walker_has_reported_the_root_and_asks_for_its_listing() {
    let args = Args::with_presence("root", true, 3, false, false).unwrap();
    let walker = Walker::new(&args);
    assert_eq!(walker.transcript(), &vec![Record::Root]);
    assert_eq!(walker.request(), Some(vec![]));
    assert!(!walker.is_finished());
    assert_eq!(walker.directory_count(), 1);
    assert_eq!(walker.file_count(), 0);
}

#[test]
fn walker_that_is_done_stays_as_it_is() {
    let args = Args::with_presence("root", true, 3, false, false).unwrap();
    let mut walker = Walker::new(&args);
    walker.resume(Some(vec![file("only")]));
    assert!(walker.is_finished());
    assert_eq!(walker.request(), None);
    let before = walker.transcript().clone();
    walker.resume(Some(vec![file("more"), dir("and more")]));
    walker.resume(None);
    assert!(walker.is_finished());
    assert_eq!(walker.transcript(), &before);
    assert_eq!(walker.directory_count(), 1);
    assert_eq!(walker.file_count(), 1);
}

#[test]
fn walker_reports_as_it_goes() {
    let args = Args::with_presence("root", true, 5, false, false).unwrap();
    let mut walker = Walker::new(&args);
    walker.resume(Some(vec![file("z"), dir("m"), file("a")]));
    assert_eq!(walker.transcript().len(), 3);
    assert_eq!(walker.request(), Some(vec!["m".to_string()]));
    assert_eq!((walker.directory_count(), walker.file_count()), (2, 1));
    walker.resume(Some(vec![]));
    assert_eq!(walker.transcript().len(), 4);
    assert_eq!(walker.request(), None);
    assert_eq!((walker.directory_count(), walker.file_count()), (2, 2));
}
