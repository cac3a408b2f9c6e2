//! The configuration of a traversal: where it starts, how deep it goes and what it shows.

use vstd::prelude::*;
use vstd::string::StringExecFns;

verus! {

/// The configuration of a traversal. It is made once and never changed.
#[derive(Debug)]
pub struct Args {
    root_dir: String,
    depth: usize,
    dirs_only: bool,
    include_hidden: bool,
}

/// A configuration as the contracts see it.
pub struct ArgsView {
    pub root_dir: Seq<char>,
    pub depth: nat,
    pub dirs_only: bool,
    pub include_hidden: bool,
}

/// Why a configuration could not be made.
#[derive(Debug)]
pub enum ArgsError {
    /// Nothing exists at the path that was given as the root.
    NotFound { path: String },
}

/// An error as the contracts see it.
pub enum ArgsErrorView {
    NotFound { path: Seq<char> },
}

impl View for ArgsError {
    type V = ArgsErrorView;

    open spec fn view(&self) -> ArgsErrorView {
        match *self {
            ArgsError::NotFound { path } => ArgsErrorView::NotFound { path: path@ },
        }
    }
}

/// The depth limit that a traversal runs with: the requested one, but at least one level.
pub open spec fn effective_depth(requested: nat) -> nat {
    if requested < 1 {
        1
    } else {
        requested
    }
}

/// The configuration that the given values stand for.
pub open spec fn configured(
    cwd: Seq<char>,
    depth: nat,
    dirs_only: bool,
    include_hidden: bool,
) -> ArgsView {
    ArgsView { root_dir: cwd, depth: effective_depth(depth), dirs_only, include_hidden }
}

/// What a failed construction says of `path`.
pub open spec fn not_found_message(path: Seq<char>) -> Seq<char> {
    "Directory does not exist: "@ + path
}

/// Asks the file system whether anything exists at `path`, with `std::path::Path::exists`.
/// Nothing is claimed of the answer: it depends on what is on disk when the call is made.
#[verifier::external_body]
fn path_exists(path: &str) -> bool {
    std::path::Path::new(path).exists()
}

impl View for Args {
    type V = ArgsView;

    closed spec fn view(&self) -> ArgsView {
        ArgsView {
            root_dir: self.root_dir@,
            depth: self.depth as nat,
            dirs_only: self.dirs_only,
            include_hidden: self.include_hidden,
        }
    }
}

impl Args {
    #[verifier::type_invariant]
    spec fn at_least_one_level(self) -> bool {
        self.depth >= 1
    }

    /// Makes the configuration for a root of which it is known whether it exists.
    /// A root that does not exist is refused; a depth below one is raised to one.
    pub fn with_presence(
        cwd: &str,
        present: bool,
        depth: usize,
        dirs_only: bool,
        include_hidden: bool,
    ) -> (made: Result<Args, ArgsError>)
        ensures
            present ==> made is Ok && made->Ok_0@ == configured(
                cwd@,
                depth as nat,
                dirs_only,
                include_hidden,
            ),
            !present ==> made is Err && made->Err_0@ == (ArgsErrorView::NotFound { path: cwd@ }),
    {
        if !present {
            return Err(ArgsError::NotFound { path: String::from_str(cwd) });
        }
        let depth = if depth < 1 {
            1
        } else {
            depth
        };
        Ok(Args { root_dir: String::from_str(cwd), depth, dirs_only, include_hidden })
    }

    /// Makes the configuration for the root at `cwd`. The file system is asked whether the
    /// root exists; one that does not is refused. Whatever the answer, the result is the
    /// configuration for these values or the error that names `cwd`.
    pub fn new(
        cwd: &str,
        depth: usize,
        dirs_only: bool,
        include_hidden: bool,
    ) -> (made: Result<Args, ArgsError>)
        ensures
            match made {
                Ok(args) => args@ == configured(cwd@, depth as nat, dirs_only, include_hidden),
                Err(e) => e@ == (ArgsErrorView::NotFound { path: cwd@ }),
            },
    {
        let present = path_exists(cwd);
        Args::with_presence(cwd, present, depth, dirs_only, include_hidden)
    }

    /// The root of the traversal, as it was given.
    pub fn root_dir(&self) -> (root: &str)
        ensures
            root@ == self@.root_dir,
    {
        self.root_dir.as_str()
    }

    /// The depth limit: entries at this depth or below it are not walked. It is at least one.
    pub fn depth(&self) -> (depth: usize)
        ensures
            depth == self@.depth,
            depth >= 1,
    {
        proof {
            use_type_invariant(self);
        }
        self.depth
    }

    /// Whether only directories are shown.
    pub fn dirs_only(&self) -> (flag: bool)
        ensures
            flag == self@.dirs_only,
    {
        self.dirs_only
    }

    /// Whether hidden entries are shown.
    pub fn include_hidden(&self) -> (flag: bool)
        ensures
            flag == self@.include_hidden,
    {
        self.include_hidden
    }
}

impl ArgsError {
    /// The path that the error is about.
    pub fn path(&self) -> (path: &str)
        ensures
            self@ == (ArgsErrorView::NotFound { path: path@ }),
    {
        match self {
            ArgsError::NotFound { path } => path.as_str(),
        }
    }

    /// What the error says, for a person to read.
    pub fn message(&self) -> (text: String)
        ensures
            self@ matches ArgsErrorView::NotFound { path } && text@ == not_found_message(path),
    {
        match self {
            ArgsError::NotFound { path } => {
                String::from_str("Directory does not exist: ").concat(path.as_str())
            },
        }
    }
}

} // verus!
