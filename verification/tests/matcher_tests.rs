//! The compiled pattern sets against the real glob engine.

use dotbak::errors::Error;
use dotbak::fs::FsTree;
use dotbak::matcher::{Matchers, PatternSet};

fn patterns(texts: &[&str]) -> Vec<String> {
    texts.iter().map(|p| String::from(*p)).collect()
}

#[test]
fn a_pattern_set_matches_by_union() {
    let fs = FsTree::new();
    let ps = PatternSet::compile(&fs, "/home", &patterns(&["*.rs", "docs/*"])).unwrap();
    assert!(ps.matches("main.rs"));
    assert!(ps.matches("docs/readme"));
    assert!(!ps.matches("main.txt"));
    assert!(!ps.matches("docs"));
}

#[test]
fn an_invalid_glob_is_refused_with_its_text() {
    let fs = FsTree::new();
    let err = PatternSet::compile(&fs, "/home", &patterns(&["ok", "broken["])).unwrap_err();
    match err {
        Error::Pattern { pattern } => assert_eq!(pattern, String::from("broken[")),
        _ => panic!("expected a pattern error"),
    }
}

#[test]
fn a_directory_pattern_is_expanded_to_its_descendants() {
    let mut fs = FsTree::new();
    fs.place_dir(&String::from("/home/qux")).unwrap();
    let ps = PatternSet::compile(&fs, "/home", &patterns(&["qux"])).unwrap();
    assert!(ps.matches("qux"));
    assert!(ps.matches("qux/foo"));
    assert!(ps.matches("qux/deep/nested/foo"));
    assert!(!ps.matches("quxx"));
}

#[test]
fn a_plain_pattern_is_not_expanded() {
    let fs = FsTree::new();
    let ps = PatternSet::compile(&fs, "/home", &patterns(&["qux"])).unwrap();
    assert!(ps.matches("qux"));
    assert!(!ps.matches("qux/foo"));
}

#[test]
fn the_exclusion_always_wins_on_overlap() {
    let fs = FsTree::new();
    let ms = Matchers::compile(
        &fs,
        "/home",
        &patterns(&["docs/*"]),
        &patterns(&["docs/secret"]),
    )
    .unwrap();
    assert!(ms.matches("docs/readme"));
    assert!(!ms.matches("docs/secret"));
    assert!(!ms.matches("elsewhere"));
}

#[test]
fn an_oversized_pattern_is_refused_not_aborted() {
    // syntactically valid, but its compiled form exceeds the glob
    // engine's size limit: the compilation must report it as refused
    let fs = FsTree::new();
    let mut huge = "a".repeat(4_000_000);
    huge.push('*');
    huge.push_str(&"b".repeat(4_000_000));
    let err = PatternSet::compile(&fs, "/home", &vec![huge]).unwrap_err();
    assert!(matches!(err, Error::Pattern { .. }));
}
