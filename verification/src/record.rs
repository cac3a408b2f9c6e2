//! What a traversal reports, one record at a time, and the text of the lines it prints.

use vstd::prelude::*;
use vstd::string::StringExecFns;

verus! {

/// One thing that a traversal reports.
#[derive(Clone, Debug, PartialEq, Eq)]
pub enum Record {
    /// The root of the traversal; it opens every transcript.
    Root,
    /// An entry that gets a line of its own.
    Visit { depth: usize, last: bool, name: String, directory: bool },
    /// A directory that could not be listed, by the names that lead to it from the root.
    Unreadable { path: Vec<String> },
    /// An entry whose kind could not be determined.
    Untyped { name: String },
}

/// A record as the contracts see it.
pub enum RecordView {
    Root,
    Visit { depth: nat, last: bool, name: Seq<char>, directory: bool },
    Unreadable { path: Seq<Seq<char>> },
    Untyped { name: Seq<char> },
}

/// The names of a path as the contracts see them.
pub open spec fn name_views(names: Seq<String>) -> Seq<Seq<char>> {
    Seq::new(names.len(), |i: int| names[i]@)
}

impl View for Record {
    type V = RecordView;

    open spec fn view(&self) -> RecordView {
        match *self {
            Record::Root => RecordView::Root,
            Record::Visit { depth, last, name, directory } => RecordView::Visit {
                depth: depth as nat,
                last,
                name: name@,
                directory,
            },
            Record::Unreadable { path } => RecordView::Unreadable { path: name_views(path@) },
            Record::Untyped { name } => RecordView::Untyped { name: name@ },
        }
    }
}

/// The records of a transcript as the contracts see them.
pub open spec fn record_views(records: Seq<Record>) -> Seq<RecordView> {
    Seq::new(records.len(), |i: int| records[i]@)
}

/// What stands in a line for one level of ancestors.
pub open spec fn indent_unit() -> Seq<char> {
    seq!['│', ' ', ' ', ' ']
}

/// What stands in a line before the name: one form for the last sibling, one for the others.
pub open spec fn branch(last: bool) -> Seq<char> {
    if last {
        seq!['└', '─', '─', ' ']
    } else {
        seq!['├', '─', '─', ' ']
    }
}

/// `depth` indentation units in a row.
pub open spec fn indent(depth: nat) -> Seq<char>
    decreases depth,
{
    if depth == 0 {
        Seq::empty()
    } else {
        indent((depth - 1) as nat) + indent_unit()
    }
}

/// The line of an entry at `depth`: indentation, branch, name.
pub open spec fn entry_line(depth: nat, last: bool, name: Seq<char>) -> Seq<char> {
    indent(depth) + branch(last) + name
}

/// The line that a record prints to the output, if it prints one.
pub open spec fn line_of(record: RecordView) -> Option<Seq<char>> {
    match record {
        RecordView::Root => Some(seq!['.']),
        RecordView::Visit { depth, last, name, directory } => Some(entry_line(depth, last, name)),
        RecordView::Unreadable { path } => None,
        RecordView::Untyped { name } => None,
    }
}

/// Writes the line of an entry.
pub fn render_entry(depth: usize, last: bool, name: &str) -> (line: String)
    ensures
        line@ == entry_line(depth as nat, last, name@),
{
    let mut line = String::new();
    let mut level: usize = 0;
    while level < depth
        invariant
            level <= depth,
            line@ == indent(level as nat),
        decreases depth - level,
    {
        proof {
            reveal_strlit("│   ");
            assert("│   "@ =~= indent_unit());
        }
        line.append("│   ");
        level += 1;
    }
    if last {
        proof {
            reveal_strlit("└── ");
            assert("└── "@ =~= branch(true));
        }
        line.append("└── ");
    } else {
        proof {
            reveal_strlit("├── ");
            assert("├── "@ =~= branch(false));
        }
        line.append("├── ");
    }
    line.append(name);
    line
}

/// The character of a decimal digit.
pub open spec fn digit(d: nat) -> char {
    if d == 0 {
        '0'
    } else if d == 1 {
        '1'
    } else if d == 2 {
        '2'
    } else if d == 3 {
        '3'
    } else if d == 4 {
        '4'
    } else if d == 5 {
        '5'
    } else if d == 6 {
        '6'
    } else if d == 7 {
        '7'
    } else if d == 8 {
        '8'
    } else {
        '9'
    }
}

/// A number in decimal digits, without leading zeros.
pub open spec fn decimal(n: nat) -> Seq<char>
    decreases n,
{
    if n < 10 {
        seq![digit(n)]
    } else {
        decimal(n / 10).push(digit(n % 10))
    }
}

/// The line that sums a traversal up.
pub open spec fn summary_text(directories: nat, files: nat) -> Seq<char> {
    decimal(directories) + " directories, "@ + decimal(files) + " files"@
}

/// What closes the output of a traversal: an empty line, then the summary.
pub open spec fn footer_text(directories: nat, files: nat) -> Seq<char> {
    seq!['\n'] + summary_text(directories, files)
}

/// The text of one decimal digit.
fn digit_text(d: usize) -> (text: &'static str)
    requires
        d < 10,
    ensures
        text@ == seq![digit(d as nat)],
{
    proof {
        reveal_strlit("0");
        reveal_strlit("1");
        reveal_strlit("2");
        reveal_strlit("3");
        reveal_strlit("4");
        reveal_strlit("5");
        reveal_strlit("6");
        reveal_strlit("7");
        reveal_strlit("8");
        reveal_strlit("9");
    }
    let text = if d == 0 {
        "0"
    } else if d == 1 {
        "1"
    } else if d == 2 {
        "2"
    } else if d == 3 {
        "3"
    } else if d == 4 {
        "4"
    } else if d == 5 {
        "5"
    } else if d == 6 {
        "6"
    } else if d == 7 {
        "7"
    } else if d == 8 {
        "8"
    } else {
        "9"
    };
    assert(text@ =~= seq![digit(d as nat)]);
    text
}

/// Writes a number in decimal digits.
pub fn render_number(n: usize) -> (text: String)
    ensures
        text@ == decimal(n as nat),
    decreases n,
{
    if n < 10 {
        String::from_str(digit_text(n))
    } else {
        let mut text = render_number(n / 10);
        text.append(digit_text(n % 10));
        assert(text@ =~= decimal(n as nat));
        text
    }
}

/// Writes the line that sums a traversal up.
pub fn render_summary(directories: usize, files: usize) -> (line: String)
    ensures
        line@ == summary_text(directories as nat, files as nat),
{
    let mut line = render_number(directories);
    line.append(" directories, ");
    let count = render_number(files);
    line.append(count.as_str());
    line.append(" files");
    line
}

/// Writes what closes the output of a traversal.
pub fn render_footer(directories: usize, files: usize) -> (text: String)
    ensures
        text@ == footer_text(directories as nat, files as nat),
{
    proof {
        reveal_strlit("\n");
        assert("\n"@ =~= seq!['\n']);
    }
    let summary = render_summary(directories, files);
    String::from_str("\n").concat(summary.as_str())
}

impl Record {
    /// The line that this record prints to the output; a diagnostic prints none there.
    pub fn line(&self) -> (text: Option<String>)
        ensures
            match text {
                Some(line) => line_of(self@) == Some(line@),
                None => line_of(self@) is None,
            },
    {
        match self {
            Record::Root => {
                proof {
                    reveal_strlit(".");
                    assert("."@ =~= seq!['.']);
                }
                Some(String::from_str("."))
            },
            Record::Visit { depth, last, name, directory } => Some(
                render_entry(*depth, *last, name.as_str()),
            ),
            Record::Unreadable { path } => None,
            Record::Untyped { name } => None,
        }
    }
}

} // verus!
