use dirtree::entry::{filter_entries, is_hidden_name, keep_entry, DirEntry};

fn patterns(list: &[&str]) -> Vec<String> {
    list.iter().map(|p| p.to_string()).collect()
}

fn file(name: &str) -> DirEntry {
    DirEntry { name: name.to_string(), is_dir: false }
}

fn dir(name: &str) -> DirEntry {
    DirEntry { name: name.to_string(), is_dir: true }
}

fn names(entries: &[DirEntry]) -> Vec<String> {
    entries.iter().map(|e| e.name.clone()).collect()
}

#[test]
fn hidden_is_a_leading_dot() {
    assert!(is_hidden_name(".env"));
    assert!(is_hidden_name("."));
    assert!(is_hidden_name(".."));
    assert!(is_hidden_name(".git"));
    assert!(!is_hidden_name("a.txt"));
    assert!(!is_hidden_name("a."));
    assert!(!is_hidden_name(""));
}

#[test]
fn hidden_entry_is_dropped_by_default_and_kept_with_all() {
    assert!(!keep_entry(".env", false, &[]));
    assert!(keep_entry(".env", true, &[]));
}

#[test]
fn ignored_entry_is_dropped_by_default_and_kept_with_all() {
    let list = patterns(&["build/"]);
    assert!(!keep_entry("build", false, &list));
    assert!(!keep_entry("build-artifacts", false, &list));
    assert!(keep_entry("build", true, &list));
    assert!(keep_entry("build-artifacts", true, &list));
}

#[test]
fn plain_entry_is_kept_in_both_modes() {
    let list = patterns(&["build/"]);
    assert!(keep_entry("src", false, &list));
    assert!(keep_entry("src", true, &list));
}

#[test]
fn hidden_and_ignored_entry_is_kept_with_all() {
    let list = patterns(&[".env"]);
    assert!(!keep_entry(".env", false, &list));
    assert!(keep_entry(".env", true, &list));
}

#[test]
fn filter_keeps_listing_order() {
    let listing = vec![file("z"), file(".a"), dir("m"), file("secret.txt"), file("b")];
    let kept = filter_entries(listing, false, &patterns(&["secret.txt"]));
    assert_eq!(names(&kept), vec!["z", "m", "b"]);
    assert_eq!(kept, vec![file("z"), dir("m"), file("b")]);
}

#[test]
fn filter_with_all_keeps_everything() {
    let listing = vec![file("z"), file(".a"), dir("m"), file("secret.txt"), file("b")];
    let kept = filter_entries(listing, true, &patterns(&["secret.txt"]));
    assert_eq!(names(&kept), vec!["z", ".a", "m", "secret.txt", "b"]);
}

#[test]
fn filter_keeps_entries_of_the_same_name() {
    let listing = vec![file("a"), file("a"), file(".a")];
    let kept = filter_entries(listing, false, &[]);
    assert_eq!(names(&kept), vec!["a", "a"]);
}

#[test]
fn filter_of_nothing_is_nothing() {
    assert_eq!(filter_entries(Vec::new(), false, &[]), Vec::<DirEntry>::new());
}

#[test]
fn filter_can_drop_everything() {
    let listing = vec![file(".a"), dir(".git"), file("x")];
    let kept = filter_entries(listing, false, &patterns(&["x"]));
    assert_eq!(kept, Vec::<DirEntry>::new());
}

#[test]
fn directories_are_filtered_like_files() {
    let listing = vec![dir("build"), dir("src"), dir(".git")];
    let kept = filter_entries(listing, false, &patterns(&["build/"]));
    assert_eq!(kept, vec![dir("src")]);
}
