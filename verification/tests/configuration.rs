use dtree::{Args, ArgsError};

#[test]
fn depth_below_one_is_raised_to_one() {
    let args = Args::with_presence("somewhere", true, 0, false, false).unwrap();
    assert_eq!(args.depth(), 1);
}

#[test]
fn depth_of_one_or_more_is_kept() {
    assert_eq!(Args::with_presence("r", true, 1, false, false).unwrap().depth(), 1);
    assert_eq!(Args::with_presence("r", true, 2, false, false).unwrap().depth(), 2);
    assert_eq!(Args::with_presence("r", true, 100, false, false).unwrap().depth(), 100);
    assert_eq!(
        Args::with_presence("r", true, usize::MAX, false, false).unwrap().depth(),
        usize::MAX
    );
}

#[test]
fn configuration_keeps_what_it_was_given() {
    let args = Args::with_presence("some/root", true, 7, true, false).unwrap();
    assert_eq!(args.root_dir(), "some/root");
    assert_eq!(args.depth(), 7);
    assert!(args.dirs_only());
    assert!(!args.include_hidden());

    let args = Args::with_presence("", true, 3, false, true).unwrap();
    assert_eq!(args.root_dir(), "");
    assert!(!args.dirs_only());
    assert!(args.include_hidden());
}

#[test]
fn missing_root_is_refused() {
    let made = Args::with_presence("nowhere", false, 3, false, false);
    match made {
        Err(ArgsError::NotFound { path }) => assert_eq!(path, "nowhere"),
        Ok(_) => panic!("a root that does not exist was accepted"),
    }
}

#[test]
fn missing_root_is_refused_whatever_else_is_asked() {
    assert!(Args::with_presence("x", false, 0, true, true).is_err());
    assert!(Args::with_presence("x", false, 1, false, true).is_err());
    assert!(Args::with_presence("x", false, usize::MAX, true, false).is_err());
}

#[test]
fn error_names_the_path() {
    let error = Args::with_presence("no/such/dir", false, 1, false, false).unwrap_err();
    assert_eq!(error.path(), "no/such/dir");
    assert_eq!(error.message(), "Directory does not exist: no/such/dir");
}

#[test]
fn existing_root_on_disk_is_accepted() {
    let args = Args::new(".", 0, false, true).unwrap();
    assert_eq!(args.root_dir(), ".");
    assert_eq!(args.depth(), 1);
    assert!(!args.dirs_only());
    assert!(args.include_hidden());
}

#[test]
fn nonexistent_root_on_disk_fails_with_not_found() {
    let path = "surely/no/such/directory/exists/here-7f3a9c";
    let error = Args::new(path, 2, false, false).unwrap_err();
    match &error {
        ArgsError::NotFound { path: named } => assert_eq!(named, path),
    }
    assert_eq!(
        error.message(),
        "Directory does not exist: surely/no/such/directory/exists/here-7f3a9c"
    );
}
