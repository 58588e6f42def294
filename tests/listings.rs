use shareboxx::listing::{list_entries, order_by_keys, precedes, DirectoryEntry, EntryKind};
use shareboxx::path::resolve;

fn dir(name: &str) -> DirectoryEntry {
    DirectoryEntry { kind: EntryKind::Directory, name: name.to_string(), size_bytes: 0 }
}

fn file(name: &str, size: u64) -> DirectoryEntry {
    DirectoryEntry { kind: EntryKind::File, name: name.to_string(), size_bytes: size }
}

fn shown_names(listing: &[DirectoryEntry]) -> Vec<String> {
    listing.iter().map(|e| e.display_name()).collect()
}

#[test]
fn subdirectory_listing_puts_up_entry_and_directories_first() {
    let path = resolve("docs/", '/').unwrap();
    let listing = list_entries(&path, vec![file("B.txt", 3), dir("a"), file("C.txt", 4)]);
    // Case-insensitive order puts "B.txt" before "C.txt".
    assert_eq!(shown_names(&listing), vec!["../", "a/", "B.txt", "C.txt"]);
    assert_eq!(listing[0], dir(".."));
    assert_eq!(listing[2], file("B.txt", 3));
}

#[test]
fn root_listing_has_no_up_entry() {
    let root = resolve("", '/').unwrap();
    let listing = list_entries(&root, vec![file("x", 1), dir(".."), dir("."), dir("y")]);
    assert_eq!(listing, vec![dir("y"), file("x", 1)]);
    assert!(listing.iter().all(|e| e.name != ".."));
}

#[test]
fn empty_directories_list_only_the_way_up() {
    assert!(list_entries(&resolve("", '/').unwrap(), vec![]).is_empty());
    assert_eq!(list_entries(&resolve("a/", '/').unwrap(), vec![]), vec![dir("..")]);
}

#[test]
fn names_sort_without_regard_to_case() {
    let root = resolve("", '/').unwrap();
    let listing = list_entries(
        &root,
        vec![file("zeta", 1), file("Alpha", 2), file("beta", 3), dir("Zdir"), dir("adir")],
    );
    let names: Vec<&str> = listing.iter().map(|e| e.name.as_str()).collect();
    assert_eq!(names, vec!["adir", "Zdir", "Alpha", "beta", "zeta"]);
}

#[test]
fn names_equal_but_for_case_keep_a_fixed_order() {
    let root = resolve("", '/').unwrap();
    let one = list_entries(&root, vec![file("a", 1), file("A", 2)]);
    let two = list_entries(&root, vec![file("A", 2), file("a", 1)]);
    assert_eq!(one, vec![file("A", 2), file("a", 1)]);
    assert_eq!(one, two);
}

#[test]
fn unreadable_entries_become_placeholders() {
    let e = DirectoryEntry::unreadable("permission denied".to_string());
    assert_eq!(e, file("permission denied", 0));
    let listing = list_entries(&resolve("", '/').unwrap(), vec![e.clone(), dir("d")]);
    assert_eq!(listing, vec![dir("d"), e]);
}

#[test]
fn sizes_are_shown_for_files_only() {
    assert_eq!(file("f", 1_048_576).size_text(), "1.00 MB");
    assert_eq!(file("f", 2048).size_text(), "2.00 KB");
    assert_eq!(dir("d").size_text(), "");
}

#[test]
fn directory_names_carry_a_trailing_separator() {
    assert_eq!(dir("a").display_name(), "a/");
    assert_eq!(file("a", 1).display_name(), "a");
}

#[test]
fn given_compared_forms_decide_the_order() {
    let entries = vec![file("B.txt", 3), dir("a"), file("C.txt", 4)];
    let keys = vec!["b.txt".to_string(), "a".to_string(), "c.txt".to_string()];
    let ordered = order_by_keys(entries, keys);
    assert_eq!(ordered, vec![dir("a"), file("B.txt", 3), file("C.txt", 4)]);
    assert!(precedes(&file("B.txt", 3), &"b.txt".to_string(), &file("C.txt", 4), &"c.txt".to_string()));
    assert!(!precedes(&file("C.txt", 4), &"c.txt".to_string(), &file("B.txt", 3), &"b.txt".to_string()));
    assert!(precedes(&dir("z"), &"z".to_string(), &file("a", 1), &"a".to_string()));
}
