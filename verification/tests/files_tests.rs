//! The reconciliation engine against a model filesystem.

use dotbak::config::FilesConfig;
use dotbak::errors::Error;
use dotbak::files::{Action, Files};
use dotbak::fs::{FsEntry, FsTree};

fn roots() -> (FsTree, Files) {
    let mut fs = FsTree::new();
    fs.place_dir(&String::from("/home")).unwrap();
    fs.place_dir(&String::from("/files")).unwrap();
    let manager = Files::init(String::from("/home"), String::from("/files"));
    (fs, manager)
}

fn touch(fs: &mut FsTree, path: &str) {
    fs.place_file(&String::from(path), Vec::new()).unwrap();
}

fn is_symlink_to(fs: &FsTree, path: &str, target: &str) -> bool {
    match fs.lookup(&String::from(path)) {
        Some(FsEntry::Symlink(t)) => t.as_str() == target,
        _ => false,
    }
}

#[test]
fn test_move_and_symlink() {
    let (mut fs, file_manager) = roots();
    touch(&mut fs, "/home/foo");

    assert!(!fs.contains(&String::from("/files/foo")));
    assert!(fs.contains(&String::from("/home/foo")));

    let relative_path = String::from("foo");
    file_manager
        .move_and_symlink(&mut fs, &vec![relative_path])
        .unwrap();

    assert!(fs.contains(&String::from("/files/foo")));
    assert!(is_symlink_to(&fs, "/home/foo", "/files/foo"));
}

#[test]
fn test_remove_and_restore() {
    let (mut fs, file_manager) = roots();
    touch(&mut fs, "/home/foo");

    assert!(!fs.contains(&String::from("/files/foo")));
    assert!(fs.contains(&String::from("/home/foo")));

    let relative_path = String::from("foo");
    file_manager
        .move_and_symlink(&mut fs, &vec![relative_path.clone()])
        .unwrap();

    assert!(fs.contains(&String::from("/files/foo")));
    assert!(is_symlink_to(&fs, "/home/foo", "/files/foo"));

    file_manager
        .remove_and_restore(&mut fs, &vec![relative_path])
        .unwrap();

    assert!(!fs.contains(&String::from("/files/foo")));
    assert!(fs.contains(&String::from("/home/foo")));
    assert!(!is_symlink_to(&fs, "/home/foo", "/files/foo"));
}

fn pattern_config(included: &[&str], excluded: &[&str]) -> FilesConfig {
    FilesConfig {
        included: included.iter().map(|p| String::from(*p)).collect(),
        excluded: excluded.iter().map(|p| String::from(*p)).collect(),
    }
}

#[test]
fn test_walk_dir() {
    let (mut fs, file_manager) = roots();
    let file_config = pattern_config(
        &["foo", "qux", "spam/**/*"],
        &["bar", "qux/baz/foo", "spam/baz/**/*"],
    );

    let files = [
        "/home/foo",
        "/home/bar",
        "/home/baz",
        "/home/qux/foo",
        "/home/qux/bar",
        "/home/qux/baz/foo",
        "/home/qux/baz/bar",
        "/home/spam/foo",
        "/home/spam/bar",
        "/home/spam/baz/foo",
        "/home/spam/baz/bar",
    ];
    for file in files.iter() {
        touch(&mut fs, file);
    }

    let expected_files = vec![
        String::from("foo"),
        String::from("qux/foo"),
        String::from("qux/bar"),
        String::from("qux/baz/bar"),
        String::from("spam/foo"),
        String::from("spam/bar"),
    ];

    let files = file_manager.walk_dir(&fs, ".", &file_config).unwrap();

    assert!(files.iter().all(|file| expected_files.contains(file)));
}

#[test]
fn test_walk_dir_subdir() {
    let (mut fs, file_manager) = roots();
    let file_config = pattern_config(&["qux"], &["qux/foo", "qux/bar/foo"]);

    let files = [
        "/home/qux/foo",
        "/home/qux/bar/foo",
        "/home/qux/bar/bar",
        "/home/qux/bar/baz/foo",
    ];
    for file in files.iter() {
        touch(&mut fs, file);
    }

    let expected_files = vec![String::from("qux/bar/bar"), String::from("qux/bar/baz/foo")];

    let files = file_manager.walk_dir(&fs, "qux", &file_config).unwrap();

    assert!(files.iter().all(|file| expected_files.contains(file)));
}

#[test]
fn test_walk_dir_file() {
    let (mut fs, file_manager) = roots();
    let file_config = pattern_config(&["foo"], &["bar"]);

    touch(&mut fs, "/home/foo");
    touch(&mut fs, "/home/bar");

    let expected_files = vec![String::from("foo")];

    let files = file_manager.walk_dir(&fs, "foo", &file_config).unwrap();

    assert!(files.iter().all(|file| expected_files.contains(file)));
}

#[test]
fn walk_dir_yields_exactly_the_selected_files() {
    let (mut fs, file_manager) = roots();
    let file_config = pattern_config(
        &["foo", "qux", "spam/**/*"],
        &["bar", "qux/baz/foo", "spam/baz/**/*"],
    );

    for file in [
        "/home/foo",
        "/home/bar",
        "/home/baz",
        "/home/qux/foo",
        "/home/qux/bar",
        "/home/qux/baz/foo",
        "/home/qux/baz/bar",
        "/home/spam/foo",
        "/home/spam/bar",
        "/home/spam/baz/foo",
        "/home/spam/baz/bar",
    ]
    .iter()
    {
        touch(&mut fs, file);
    }

    let mut walked = file_manager.walk_dir(&fs, ".", &file_config).unwrap();
    walked.sort();
    let mut expected = vec![
        String::from("foo"),
        String::from("qux/foo"),
        String::from("qux/bar"),
        String::from("qux/baz/bar"),
        String::from("spam/foo"),
        String::from("spam/bar"),
    ];
    expected.sort();
    assert_eq!(walked, expected);
}

#[test]
fn move_fresh_file_into_empty_storage() {
    let (mut fs, file_manager) = roots();
    touch(&mut fs, "/home/test.txt");

    let actions = file_manager
        .move_and_symlink(&mut fs, &vec![String::from("test.txt")])
        .unwrap();

    assert!(fs.contains(&String::from("/files/test.txt")));
    assert!(is_symlink_to(&fs, "/home/test.txt", "/files/test.txt"));
    assert!(!actions.is_empty());
}

#[test]
fn move_and_symlink_twice_is_idempotent() {
    let (mut fs, file_manager) = roots();
    touch(&mut fs, "/home/foo");
    fs.place_file(&String::from("/home/sub/bar"), vec![7u8]).unwrap();

    let batch = vec![String::from("foo"), String::from("sub/bar")];
    let first = file_manager.move_and_symlink(&mut fs, &batch).unwrap();
    assert!(!first.is_empty());

    let second = file_manager.move_and_symlink(&mut fs, &batch).unwrap();
    assert!(second.is_empty());
    assert!(is_symlink_to(&fs, "/home/foo", "/files/foo"));
    assert!(is_symlink_to(&fs, "/home/sub/bar", "/files/sub/bar"));
}

#[test]
fn round_trip_restores_content() {
    let (mut fs, file_manager) = roots();
    let content = vec![1u8, 2, 3, 4];
    fs.place_file(&String::from("/home/nested/conf"), content.clone())
        .unwrap();

    let batch = vec![String::from("nested/conf")];
    file_manager.move_and_symlink(&mut fs, &batch).unwrap();
    file_manager.remove_and_restore(&mut fs, &batch).unwrap();

    match fs.lookup(&String::from("/home/nested/conf")) {
        Some(FsEntry::File(c)) => assert_eq!(c, &content),
        _ => panic!("expected the original file back"),
    }
    assert!(!fs.contains(&String::from("/files/nested/conf")));
}

#[test]
fn foreign_symlink_is_moved_not_adopted() {
    let (mut fs, file_manager) = roots();
    fs.symlink(&String::from("/elsewhere/foo"), &String::from("/home/foo"))
        .unwrap();

    assert!(!file_manager.is_managed_in_home(&fs, "foo"));

    file_manager
        .move_and_symlink(&mut fs, &vec![String::from("foo")])
        .unwrap();

    assert!(is_symlink_to(&fs, "/files/foo", "/elsewhere/foo"));
    assert!(is_symlink_to(&fs, "/home/foo", "/files/foo"));
    assert!(file_manager.is_managed_in_home(&fs, "foo"));
}

#[test]
fn stored_path_is_linked_without_moving() {
    let (mut fs, file_manager) = roots();
    let content = vec![9u8];
    fs.place_file(&String::from("/files/foo"), content.clone())
        .unwrap();

    file_manager
        .move_and_symlink(&mut fs, &vec![String::from("foo")])
        .unwrap();

    assert!(is_symlink_to(&fs, "/home/foo", "/files/foo"));
    match fs.lookup(&String::from("/files/foo")) {
        Some(FsEntry::File(c)) => assert_eq!(c, &content),
        _ => panic!("storage copy must be untouched"),
    }
}

#[test]
fn blocking_entry_is_deleted_and_link_retried() {
    let (mut fs, file_manager) = roots();
    fs.place_file(&String::from("/files/foo"), vec![1u8]).unwrap();
    fs.place_file(&String::from("/home/foo"), vec![2u8]).unwrap();

    let actions = file_manager
        .move_and_symlink(&mut fs, &vec![String::from("foo")])
        .unwrap();

    assert!(is_symlink_to(&fs, "/home/foo", "/files/foo"));
    assert!(actions
        .iter()
        .any(|a| matches!(a, Action::Remove { path } if path.as_str() == "/home/foo")));
}

#[test]
fn symlink_back_home_links_only_the_missing() {
    let (mut fs, file_manager) = roots();
    fs.place_file(&String::from("/files/a"), vec![]).unwrap();
    fs.place_file(&String::from("/files/b"), vec![]).unwrap();
    touch(&mut fs, "/home/c");

    let batch = vec![String::from("a"), String::from("b"), String::from("c")];
    file_manager
        .move_and_symlink(&mut fs, &vec![String::from("a")])
        .unwrap();

    let actions = file_manager.symlink_back_home(&mut fs, &batch).unwrap();

    assert!(is_symlink_to(&fs, "/home/a", "/files/a"));
    assert!(is_symlink_to(&fs, "/home/b", "/files/b"));
    // `c` has no storage copy: the repair never moves or destroys content
    assert!(matches!(
        fs.lookup(&String::from("/home/c")),
        Some(FsEntry::File(_))
    ));
    assert!(actions
        .iter()
        .all(|a| !matches!(a, Action::Move { .. })));
}

#[test]
fn a_folder_is_moved_with_its_contents() {
    let (mut fs, file_manager) = roots();
    fs.place_file(&String::from("/home/conf/a"), vec![1u8]).unwrap();
    fs.place_file(&String::from("/home/conf/b"), vec![2u8]).unwrap();

    file_manager
        .move_and_symlink(&mut fs, &vec![String::from("conf")])
        .unwrap();

    assert!(matches!(
        fs.lookup(&String::from("/files/conf")),
        Some(FsEntry::Dir)
    ));
    assert!(matches!(
        fs.lookup(&String::from("/files/conf/a")),
        Some(FsEntry::File(_))
    ));
    assert!(matches!(
        fs.lookup(&String::from("/files/conf/b")),
        Some(FsEntry::File(_))
    ));
    assert!(is_symlink_to(&fs, "/home/conf", "/files/conf"));
    assert!(!fs.contains(&String::from("/home/conf/a")));
}

#[test]
fn overlapping_batches_are_refused_by_the_check() {
    let (_, file_manager) = roots();
    assert!(file_manager.batch_is_ok(&vec![String::from("a"), String::from("b/c")]));
    assert!(!file_manager.batch_is_ok(&vec![String::from("a"), String::from("a/c")]));
    assert!(!file_manager.batch_is_ok(&vec![String::from("a"), String::from("a")]));
    assert!(!file_manager.batch_is_ok(&vec![String::from("/abs")]));
    assert!(!file_manager.batch_is_ok(&vec![String::from("")]));

    // with the storage tree inside the home tree, paths into it are refused
    let nested = Files::init(
        String::from("/home"),
        String::from("/home/.dotbak/dotfiles"),
    );
    assert!(nested.batch_is_ok(&vec![String::from(".bashrc")]));
    assert!(!nested.batch_is_ok(&vec![String::from(".dotbak/dotfiles/x")]));
    assert!(!nested.batch_is_ok(&vec![String::from(".dotbak")]));
}

#[test]
fn missing_path_fails_with_move_error() {
    let (mut fs, file_manager) = roots();

    let err = file_manager
        .move_and_symlink(&mut fs, &vec![String::from("absent")])
        .unwrap_err();

    assert!(matches!(err, Error::Move { .. }));
}

#[test]
fn restoring_an_unmanaged_path_fails_with_delete_error() {
    let (mut fs, file_manager) = roots();
    touch(&mut fs, "/home/foo");

    let err = file_manager
        .remove_and_restore(&mut fs, &vec![String::from("foo")])
        .unwrap_err();

    assert!(matches!(err, Error::Delete { .. }));
}

#[test]
fn blocked_storage_parent_fails_with_already_exists() {
    let (mut fs, file_manager) = roots();
    touch(&mut fs, "/home/a/b");
    // a plain file occupies the directory position on the storage side
    fs.place_file(&String::from("/files/a"), vec![]).unwrap();

    let err = file_manager
        .move_and_symlink(&mut fs, &vec![String::from("a/b")])
        .unwrap_err();

    assert!(matches!(err, Error::AlreadyExists { .. }));
}

#[test]
fn missing_home_parent_fails_with_symlink_error() {
    let (mut fs, file_manager) = roots();
    fs.place_file(&String::from("/files/a/b"), vec![]).unwrap();

    let err = file_manager
        .symlink_back_home(&mut fs, &vec![String::from("a/b")])
        .unwrap_err();

    assert!(matches!(err, Error::Symlink { .. }));
}

#[test]
fn invalid_glob_fails_with_pattern_error() {
    let (fs, file_manager) = {
        let (fs, m) = roots();
        (fs, m)
    };
    let file_config = pattern_config(&["foo["], &[]);

    let err = file_manager.walk_dir(&fs, ".", &file_config).unwrap_err();

    assert!(matches!(err, Error::Pattern { .. }));
}

#[test]
fn walking_a_missing_start_fails_with_not_found() {
    let (fs, file_manager) = roots();
    let file_config = pattern_config(&["foo"], &[]);

    let err = file_manager.walk_dir(&fs, "ghostly", &file_config).unwrap_err();

    assert!(matches!(err, Error::NotFound { .. }));
}

#[test]
fn walking_through_a_symlink_fails_with_traversal_error() {
    let (mut fs, file_manager) = roots();
    fs.symlink(&String::from("/files"), &String::from("/home/link"))
        .unwrap();
    let file_config = pattern_config(&["link"], &[]);

    let err = file_manager.walk_dir(&fs, "link", &file_config).unwrap_err();

    assert!(matches!(err, Error::Traversal { .. }));
}

#[test]
fn directory_pattern_matches_nested_files_not_the_directory() {
    let (mut fs, file_manager) = roots();
    touch(&mut fs, "/home/qux/deep/deeper/leaf");
    touch(&mut fs, "/home/qux/top");
    let file_config = pattern_config(&["qux"], &[]);

    let mut walked = file_manager.walk_dir(&fs, ".", &file_config).unwrap();
    walked.sort();

    // every nested file at any depth, and no entry for the directory node
    assert_eq!(
        walked,
        vec![String::from("qux/deep/deeper/leaf"), String::from("qux/top")]
    );
}
