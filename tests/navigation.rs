use shareboxx::listing::{DirectoryEntry, EntryKind, ListError};
use shareboxx::navigation::{is_directory_name, NavState, Navigator};

fn entry(name: &str) -> DirectoryEntry {
    DirectoryEntry { kind: EntryKind::File, name: name.to_string(), size_bytes: 1 }
}

#[test]
fn starts_at_root_with_a_request() {
    let (nav, req) = Navigator::new();
    assert_eq!(nav.state(), NavState::AtRoot);
    assert_eq!(req.id, 0);
    assert_eq!(req.path, "");
    assert!(nav.displayed().is_none());
}

#[test]
fn entering_directories_extends_the_path() {
    let (mut nav, _) = Navigator::new();
    let r1 = nav.enter_directory("a").unwrap();
    assert_eq!(r1.path, "a/");
    assert_eq!(r1.id, 1);
    let r2 = nav.enter_directory("b").unwrap();
    assert_eq!(r2.path, "a/b/");
    assert_eq!(r2.id, 2);
    assert_eq!(nav.state(), NavState::AtSubpath("a/b/".to_string()));
}

#[test]
fn going_up_drops_the_last_directory() {
    let (mut nav, _) = Navigator::new();
    nav.enter_directory("a").unwrap();
    nav.enter_directory("b").unwrap();
    assert_eq!(nav.state(), NavState::AtSubpath("a/b/".to_string()));
    let up = nav.go_up();
    assert_eq!(nav.state(), NavState::AtSubpath("a/".to_string()));
    assert_eq!(up.path, "a/");
    let up = nav.go_up();
    assert_eq!(nav.state(), NavState::AtRoot);
    assert_eq!(up.path, "");
    let up = nav.go_up();
    assert_eq!(nav.state(), NavState::AtRoot);
    assert_eq!(up.path, "");
}

#[test]
fn the_up_entry_goes_up() {
    let (mut nav, _) = Navigator::new();
    nav.enter_directory("a").unwrap();
    let req = nav.enter_directory("..").unwrap();
    assert_eq!(req.path, "");
    assert_eq!(nav.state(), NavState::AtRoot);
}

#[test]
fn names_that_are_not_one_segment_are_refused() {
    let (mut nav, _) = Navigator::new();
    for name in ["", ".", "a/b"] {
        assert!(nav.enter_directory(name).is_none(), "{}", name);
    }
    assert_eq!(nav.state(), NavState::AtRoot);
    assert!(is_directory_name("docs"));
    assert!(is_directory_name(".hidden"));
    assert!(!is_directory_name(".."));
}

#[test]
fn opening_a_file_keeps_the_state() {
    let (mut nav, _) = Navigator::new();
    nav.enter_directory("a").unwrap();
    assert_eq!(nav.open_file("f.txt"), "a/f.txt");
    assert_eq!(nav.state(), NavState::AtSubpath("a/".to_string()));
}

#[test]
fn late_answer_to_superseded_request_is_dropped() {
    let (mut nav, _) = Navigator::new();
    let first = nav.enter_directory("p1").unwrap();
    nav.go_up();
    let second = nav.enter_directory("p2").unwrap();
    assert!(nav.receive(second.id, Ok(vec![entry("two")])));
    assert!(!nav.receive(first.id, Ok(vec![entry("one")])));
    let shown = nav.displayed().unwrap();
    assert_eq!(shown.request_id, second.id);
    assert_eq!(shown.path, "p2/");
    assert_eq!(shown.result, Ok(vec![entry("two")]));
}

#[test]
fn early_answer_to_superseded_request_is_dropped() {
    let (mut nav, _) = Navigator::new();
    let first = nav.enter_directory("p1").unwrap();
    let second = nav.go_up();
    assert!(!nav.receive(first.id, Err(ListError::NotFound)));
    assert!(nav.displayed().is_none());
    assert!(nav.receive(second.id, Err(ListError::Io("denied".to_string()))));
    assert_eq!(nav.displayed().unwrap().result, Err(ListError::Io("denied".to_string())));
}

#[test]
fn refresh_issues_a_new_id_for_the_same_path() {
    let (mut nav, first) = Navigator::new();
    let again = nav.refresh();
    assert_eq!(again.path, "");
    assert!(again.id > first.id);
    assert!(!nav.receive(first.id, Ok(vec![])));
    assert!(nav.receive(again.id, Ok(vec![])));
}

#[test]
fn backslash_names_are_entered_and_left() {
    let (mut nav, _) = Navigator::new();
    nav.enter_directory("a").unwrap();
    let req = nav.enter_directory("x\\y").unwrap();
    assert_eq!(req.path, "a/x\\y/");
    nav.go_up();
    assert_eq!(nav.state(), NavState::AtSubpath("a/".to_string()));
}
