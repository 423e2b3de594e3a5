use chronicle::hashing::hash_string;
use chronicle::index::{
    get_staged_hashes, is_file_in_index, is_unchanged_in_index, stage_file, FileTime, IndexEntry,
};

fn t(secs: i64) -> FileTime {
    FileTime { secs, nanos: 0 }
}

#[test]
fn index_entry_fields() {
    let e = IndexEntry::new(String::from("h"), 4, t(9));
    assert_eq!(e.hash, "h");
    assert_eq!(e.file_size, 4);
    assert_eq!(e.last_modified, t(9));
}

#[test]
fn staging_a_new_file_adds_an_entry() {
    let mut entries: Vec<(String, IndexEntry)> = Vec::new();
    assert!(stage_file(&mut entries, "a.txt", "hello", 5, t(1)));
    assert_eq!(entries.len(), 1);
    assert_eq!(entries[0].0, "a.txt");
    assert_eq!(entries[0].1, IndexEntry::new(hash_string("hello"), 5, t(1)));
}

#[test]
fn staging_again_changes_nothing() {
    let mut entries: Vec<(String, IndexEntry)> = Vec::new();
    assert!(stage_file(&mut entries, "a.txt", "hello", 5, t(1)));
    let before = entries.clone();
    assert!(!stage_file(&mut entries, "a.txt", "hello", 5, t(1)));
    assert_eq!(entries, before);
    // A new modification time with the same contents is still the same file.
    assert!(!stage_file(&mut entries, "a.txt", "hello", 5, t(2)));
    assert_eq!(entries, before);
}

#[test]
fn staging_changed_contents_replaces_the_entry() {
    let mut entries: Vec<(String, IndexEntry)> = Vec::new();
    stage_file(&mut entries, "b.txt", "one", 3, t(1));
    stage_file(&mut entries, "a.txt", "hello", 5, t(1));
    assert!(stage_file(&mut entries, "a//a.txt/../a.txt", "x", 1, t(1)));
    assert_eq!(entries.len(), 3);
    assert!(stage_file(&mut entries, "a.txt/", "bye", 3, t(2)));
    assert_eq!(entries.len(), 3);
    assert_eq!(entries[1].0, "a.txt");
    assert_eq!(entries[1].1, IndexEntry::new(hash_string("bye"), 3, t(2)));
    assert_eq!(entries[0].1, IndexEntry::new(hash_string("one"), 3, t(1)));
}

#[test]
fn paths_compare_by_components() {
    let mut entries: Vec<(String, IndexEntry)> = Vec::new();
    stage_file(&mut entries, "d//f", "c", 1, t(1));
    assert!(!stage_file(&mut entries, "d/./f", "c", 1, t(1)));
    assert!(stage_file(&mut entries, "./d/f", "c", 1, t(1)));
    assert_eq!(entries.len(), 2);
}

#[test]
fn membership_and_computed_hash() {
    let entries = vec![(String::from("f"), IndexEntry::new(hash_string("abc"), 3, t(5)))];
    let mut computed = None;
    assert!(!is_file_in_index(&entries, "g", t(5), "abc", &mut computed));
    assert_eq!(computed, None);
    assert!(is_file_in_index(&entries, "f", t(5), "zzz", &mut computed));
    assert_eq!(computed, None);
    assert!(is_file_in_index(&entries, "f", t(6), "abc", &mut computed));
    assert_eq!(computed, Some(hash_string("abc")));
    let mut computed = None;
    assert!(!is_file_in_index(&entries, "f", t(6), "abd", &mut computed));
    assert_eq!(computed, Some(hash_string("abd")));
}

#[test]
fn staged_hashes_pair_paths_and_hashes() {
    let entries = vec![
        (String::from("x"), IndexEntry::new(String::from("1"), 1, t(1))),
        (String::from("y/z"), IndexEntry::new(String::from("2"), 1, t(1))),
    ];
    assert_eq!(
        get_staged_hashes(&entries),
        vec![(String::from("x"), String::from("1")), (String::from("y/z"), String::from("2"))]
    );
}

#[test]
fn unchanged_means_same_path_and_same_time() {
    let mut entries: Vec<(String, IndexEntry)> = Vec::new();
    assert!(!is_unchanged_in_index(&entries, "a.txt", t(1)));
    stage_file(&mut entries, "a.txt", "hello", 5, t(1));
    assert!(is_unchanged_in_index(&entries, "a.txt", t(1)));
    assert!(!is_unchanged_in_index(&entries, "./a.txt", t(1)));
    assert!(is_unchanged_in_index(&entries, "a.txt/", t(1)));
    assert!(!is_unchanged_in_index(&entries, "a.txt", t(2)));
    assert!(!is_unchanged_in_index(&entries, "b.txt", t(1)));
}
