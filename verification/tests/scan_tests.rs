use spyglass::ChildEntry;
use spyglass::Scanner;

fn child(name: &str, is_dir: bool) -> ChildEntry {
    ChildEntry { name: name.to_string(), is_directory: is_dir }
}

#[test]
fn a_fresh_scanner_queues_the_root() {
    let mut sc = Scanner::new("/r".to_string(), true);
    let p = sc.progress_snapshot();
    assert_eq!(p.total_folders, 1);
    assert_eq!(p.indexed_folders, 0);
    assert_eq!(p.total_files, 0);
    assert!(!p.is_complete);
    assert_eq!(sc.take_next(), Some("/r".to_string()));
    assert_eq!(sc.take_next(), None);
}

#[test]
fn hidden_children_are_skipped_entirely() {
    let mut sc = Scanner::new("/r".to_string(), true);
    let d = sc.take_next().unwrap();
    sc.ingest(
        &d,
        &vec![
            child(".hidden", true),
            child("a.txt", false),
            child(".secret", false),
            child("sub", true),
        ],
    );
    // no hidden entry, and the hidden directory was never queued
    let names: Vec<&str> = sc.entries.iter().map(|e| e.name.as_str()).collect();
    assert_eq!(names, vec!["a.txt", "sub"]);
    assert_eq!(sc.take_next(), Some("/r/sub".to_string()));
    assert_eq!(sc.take_next(), None);
}

#[test]
fn hidden_children_are_kept_when_not_skipping() {
    let mut sc = Scanner::new("/r".to_string(), false);
    let d = sc.take_next().unwrap();
    sc.ingest(&d, &vec![child(".hidden", true), child("a.txt", false)]);
    let names: Vec<&str> = sc.entries.iter().map(|e| e.name.as_str()).collect();
    assert_eq!(names, vec![".hidden", "a.txt"]);
    assert_eq!(sc.take_next(), Some("/r/.hidden".to_string()));
}

#[test]
fn excluded_directories_are_listed_but_never_descended() {
    let mut sc = Scanner::new("/r".to_string(), true);
    let d = sc.take_next().unwrap();
    sc.ingest(
        &d,
        &vec![
            child("node_modules", true),
            child("target", true),
            child("src", true),
            child("README.md", false),
        ],
    );
    // the excluded directories still get their own entries
    let names: Vec<&str> = sc.entries.iter().map(|e| e.name.as_str()).collect();
    assert_eq!(names, vec!["node_modules", "target", "src", "README.md"]);
    // but only src is queued for descent
    assert_eq!(sc.take_next(), Some("/r/src".to_string()));
    assert_eq!(sc.take_next(), None);
}

#[test]
fn entries_record_paths_and_parent_folders() {
    let mut sc = Scanner::new("/home/user".to_string(), true);
    let d = sc.take_next().unwrap();
    sc.ingest(&d, &vec![child("docs", true), child("a.txt", false)]);
    assert_eq!(sc.entries[0].name, "docs");
    assert_eq!(sc.entries[0].path, "/home/user/docs");
    assert!(sc.entries[0].is_directory);
    assert_eq!(sc.entries[0].parent_folder, "user");
    let d2 = sc.take_next().unwrap();
    assert_eq!(d2, "/home/user/docs");
    sc.ingest(&d2, &vec![child("b.txt", false)]);
    assert_eq!(sc.entries[2].path, "/home/user/docs/b.txt");
    assert_eq!(sc.entries[2].parent_folder, "docs");
}

#[test]
fn the_roots_parent_is_the_sentinel() {
    let mut sc = Scanner::new("/".to_string(), true);
    let d = sc.take_next().unwrap();
    sc.ingest(&d, &vec![child("etc", true)]);
    assert_eq!(sc.entries[0].parent_folder, "~");
    let mut sc2 = Scanner::new("plain".to_string(), true);
    let d2 = sc2.take_next().unwrap();
    sc2.ingest(&d2, &vec![child("x", false)]);
    assert_eq!(sc2.entries[0].parent_folder, "plain");
}

#[test]
fn progress_counts_folders_and_files() {
    let mut sc = Scanner::new("/r".to_string(), true);
    let d = sc.take_next().unwrap();
    sc.ingest(
        &d,
        &vec![child("a", true), child("b", true), child("f.txt", false)],
    );
    let p1 = sc.progress_snapshot();
    assert_eq!(p1.total_folders, 3); // the root plus the two queued
    assert_eq!(p1.indexed_folders, 1);
    assert_eq!(p1.total_files, 3);
    assert_eq!(p1.current_folder, "/r");
    let d2 = sc.take_next().unwrap();
    assert_eq!(d2, "/r/b");
    sc.ingest(&d2, &vec![]);
    let p2 = sc.progress_snapshot();
    assert_eq!(p2.indexed_folders, 2);
    assert!(p2.indexed_folders >= p1.indexed_folders);
    assert!(p2.total_files >= p1.total_files);
    let d3 = sc.take_next().unwrap();
    assert_eq!(d3, "/r/a");
    sc.ingest(&d3, &vec![child("deep.txt", false)]);
    assert_eq!(sc.take_next(), None);
    sc.finish();
    let (entries, p) = sc.into_results();
    assert!(p.is_complete);
    assert_eq!(p.total_files, 4);
    assert_eq!(p.indexed_folders, 3);
    assert_eq!(entries.len(), 4);
}

#[test]
fn empty_directories_still_count_as_indexed() {
    let mut sc = Scanner::new("/r".to_string(), true);
    let d = sc.take_next().unwrap();
    sc.ingest(&d, &vec![]);
    let p = sc.progress_snapshot();
    assert_eq!(p.indexed_folders, 1);
    assert_eq!(p.total_files, 0);
    assert_eq!(sc.take_next(), None);
}
