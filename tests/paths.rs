use shareboxx::path::{join_text, resolve, stays_within, upload_destinations, TraversalError};

#[test]
fn parent_segments_are_refused() {
    for raw in ["..", "../etc", "a/..", "a/../b", "a/b/../../.."] {
        assert_eq!(resolve(raw, '/').err(), Some(TraversalError), "{}", raw);
    }
    assert!(resolve("a\\..\\b", '\\').is_err());
}

#[test]
fn backslash_is_a_name_character_where_it_does_not_separate() {
    assert_eq!(resolve("a\\..\\b", '/').unwrap().as_str(), "a\\..\\b");
    assert_eq!(resolve("\\x", '/').unwrap().as_str(), "\\x");
    assert!(resolve("\\x", '\\').is_err());
}

#[test]
fn absolute_paths_are_refused() {
    assert!(resolve("/etc", '/').is_err());
    assert!(resolve("\\windows", '\\').is_err());
}

#[test]
fn plain_paths_are_accepted_unchanged() {
    for raw in ["", "a/", "a/b/", "notes..txt", "a/.hidden/", "...", "a/./b"] {
        let p = resolve(raw, '/').unwrap();
        assert_eq!(p.as_str(), raw);
    }
}

#[test]
fn root_is_recognised() {
    assert!(resolve("", '/').unwrap().is_root());
    assert!(!resolve("a/", '/').unwrap().is_root());
}

#[test]
fn paths_are_joined_under_the_root() {
    assert_eq!(resolve("a/b.txt", '/').unwrap().under("/srv/files"), "/srv/files/a/b.txt");
    assert_eq!(resolve("a/", '/').unwrap().under("/srv/files/"), "/srv/files/a/");
    assert_eq!(resolve("", '/').unwrap().under("/srv/files"), "/srv/files/");
    assert_eq!(join_text("C:\\files\\", "a", '\\'), "C:\\files\\a");
}

#[test]
fn upload_targets_are_checked_whole() {
    let dir = resolve("a/", '/').unwrap();
    assert_eq!(dir.child("x.txt").unwrap().as_str(), "a/x.txt");
    let root = resolve("", '/').unwrap();
    assert_eq!(root.child("x.txt").unwrap().as_str(), "x.txt");
    let plain = resolve("a", '/').unwrap();
    assert_eq!(plain.child("x.txt").unwrap().as_str(), "a/x.txt");
    assert!(dir.child("..").is_err());
    assert!(dir.child("../../etc/passwd").is_err());
    assert!(root.child("/etc/passwd").is_err());
    assert_eq!(root.child("\\x").unwrap().as_str(), "\\x");
    assert!(resolve("", '\\').unwrap().child("\\x").is_err());
}

#[test]
fn upload_destinations_are_all_checked_first() {
    let names = vec!["a.txt".to_string(), "b.txt".to_string()];
    let dests = upload_destinations("docs/", &names, '/').unwrap();
    let texts: Vec<&str> = dests.iter().map(|d| d.as_str()).collect();
    assert_eq!(texts, vec!["docs/a.txt", "docs/b.txt"]);
    let bad = vec!["a.txt".to_string(), "../b.txt".to_string()];
    assert_eq!(upload_destinations("docs/", &bad, '/').err(), Some(TraversalError));
    assert!(upload_destinations("../", &names, '/').is_err());
    assert!(upload_destinations("", &Vec::new(), '/').unwrap().is_empty());
}

#[test]
fn canonical_paths_are_checked_by_segment() {
    assert!(stays_within("/srv/files", "/srv/files", '/'));
    assert!(stays_within("/srv/files", "/srv/files/a", '/'));
    assert!(stays_within("/srv/files/", "/srv/files/a", '/'));
    assert!(!stays_within("/srv/files", "/srv/filesx", '/'));
    assert!(!stays_within("/srv/files", "/srv", '/'));
    assert!(!stays_within("/srv/files", "/etc/passwd", '/'));
}
