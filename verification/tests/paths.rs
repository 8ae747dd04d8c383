use embr_format::error::{Error, Fault};
use embr_format::paths::{matches_path, safe_join, sanitize_path, to_archive_path, PathPart};

fn fault<T>(r: Result<T, Error>) -> Option<Fault> {
    r.err().map(|e| e.fault)
}

#[test]
fn rejects_traversal_and_absolute_paths() {
    assert!(sanitize_path("a/b.txt").is_ok());
    assert!(sanitize_path("/etc/passwd").is_err());
    assert!(sanitize_path("../../etc/passwd").is_err());
    assert!(sanitize_path("a/../../b").is_err());
    assert!(sanitize_path("C:/windows").is_err());
    assert!(sanitize_path("a//b").is_err());
    assert!(sanitize_path("").is_err());
}

#[test]
fn safe_join_blocks_escapes() {
    let dest = "/tmp/dest";
    assert!(safe_join(dest, "a/b.txt").is_ok());
    assert!(safe_join(dest, "../evil").is_err());
    assert!(safe_join(dest, "/etc/passwd").is_err());
}

#[test]
fn path_selectors_match_directories() {
    assert!(matches_path("src/main.rs", "src"));
    assert!(matches_path("src/main.rs", "src/"));
    assert!(matches_path("src/main.rs", "src/main.rs"));
    assert!(!matches_path("srcx/main.rs", "src"));
}

#[test]
fn each_bad_path_has_its_fault() {
    assert_eq!(fault(sanitize_path("")), Some(Fault::EmptyPath));
    assert_eq!(fault(sanitize_path("/a")), Some(Fault::AbsolutePath));
    assert_eq!(fault(sanitize_path("\\a")), Some(Fault::AbsolutePath));
    assert_eq!(fault(sanitize_path("C:/a")), Some(Fault::DriveLetter));
    assert_eq!(fault(sanitize_path("a/../b")), Some(Fault::EscapingPath));
    assert_eq!(fault(sanitize_path("a/./b")), Some(Fault::BlankComponent));
    assert_eq!(fault(sanitize_path("a/b/")), Some(Fault::BlankComponent));
    assert_eq!(fault(sanitize_path("a/b\\c")), Some(Fault::Backslash));
    // The first faulty component decides.
    assert_eq!(fault(sanitize_path("a//../b")), Some(Fault::BlankComponent));
    // A colon behind a character that takes two bytes is no drive letter.
    assert_eq!(sanitize_path("é:x").unwrap(), "é:x");
    assert_eq!(sanitize_path("a.../..b").unwrap(), "a.../..b");
}

#[test]
fn joining_adds_one_slash() {
    assert_eq!(safe_join("/tmp/dest", "a/b.txt").unwrap(), "/tmp/dest/a/b.txt");
    assert_eq!(safe_join("/", "a").unwrap(), "/a");
    assert_eq!(safe_join("", "a").unwrap(), "a");
}

#[test]
fn selectors_are_exact_or_directories() {
    assert!(matches_path("a", "a///"));
    assert!(!matches_path("a", "a/b"));
    assert!(!matches_path("ab", "a"));
    assert!(matches_path("", "/"));
    assert!(!matches_path("b/a", "a"));
}

#[test]
fn walked_paths_become_archive_paths() {
    let parts = vec![PathPart::Normal("a".to_string()), PathPart::Normal("b c".to_string())];
    assert_eq!(to_archive_path(&parts).unwrap(), "a/b c");
    let odd = vec![PathPart::Normal("a".to_string()), PathPart::Other];
    assert_eq!(fault(to_archive_path(&odd)), Some(Fault::UnsupportedComponent));
    let bad = vec![PathPart::Normal("a\\b".to_string())];
    assert_eq!(fault(to_archive_path(&bad)), Some(Fault::Backslash));
}
