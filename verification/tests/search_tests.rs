use spyglass::ChildEntry;
use spyglass::IndexEntry;
use spyglass::IndexState;
use spyglass::Scanner;

fn entry(name: &str, path: &str, is_dir: bool, parent: &str) -> IndexEntry {
    IndexEntry {
        name: name.to_string(),
        path: path.to_string(),
        is_directory: is_dir,
        parent_folder: parent.to_string(),
    }
}

fn file(name: &str) -> IndexEntry {
    entry(name, &format!("/home/u/{}", name), false, "u")
}

fn state_with(entries: Vec<IndexEntry>) -> IndexState {
    let mut st = IndexState::new();
    st.commit_scan(entries);
    st
}

#[test]
fn empty_query_returns_nothing() {
    let st = state_with(vec![file("log"), file("data"), file("notes")]);
    assert_eq!(st.search("").len(), 0);
    let empty = IndexState::new();
    assert_eq!(empty.search("").len(), 0);
}

#[test]
fn results_are_capped_at_100() {
    let mut v = Vec::new();
    for i in 0..150 {
        v.push(file(&format!("file{:03}", i)));
    }
    let st = state_with(v);
    let res = st.search("file");
    assert_eq!(res.len(), 100);
    for e in &res {
        assert!(e.name.to_lowercase().contains("file"));
    }
}

#[test]
fn only_matching_entries_come_back() {
    let st = state_with(vec![file("alpha"), file("beta"), file("gamma")]);
    let res = st.search("et");
    assert_eq!(res.len(), 1);
    assert_eq!(res[0].name, "beta");
}

#[test]
fn matching_is_case_insensitive() {
    let st = state_with(vec![file("MyLogFile"), file("other")]);
    let res = st.search("mylog");
    assert_eq!(res.len(), 1);
    assert_eq!(res[0].name, "MyLogFile");
    let res2 = st.search("MYLOG");
    assert_eq!(res2.len(), 1);
    assert_eq!(res2[0].name, "MyLogFile");
}

#[test]
fn tiers_rank_exact_prefix_boundary_substring() {
    // equal-length names past the exact match, all files, no projects paths
    let st = state_with(vec![
        file("arlogc"),
        file("ab_log"),
        file("logabc"),
        file("log"),
    ]);
    let res = st.search("log");
    let names: Vec<&str> = res.iter().map(|e| e.name.as_str()).collect();
    assert_eq!(names, vec!["log", "logabc", "ab_log", "arlogc"]);
}

#[test]
fn scoring_on_the_log_family() {
    // exact 1000+47, prefix 500+44, boundary 300+43, substring 0+43
    let st = state_with(vec![
        file("catalog"),
        file("app-log"),
        file("logger"),
        file("log"),
    ]);
    let res = st.search("log");
    let names: Vec<&str> = res.iter().map(|e| e.name.as_str()).collect();
    assert_eq!(names, vec!["log", "logger", "app-log", "catalog"]);
}

#[test]
fn directory_named_test_outranks_file_named_test2() {
    let st = state_with(vec![
        entry("test2", "/home/u/test2", false, "u"),
        entry("test", "/home/u/test", true, "u"),
    ]);
    let res = st.search("test");
    assert_eq!(res.len(), 2);
    assert_eq!(res[0].name, "test");
    assert!(res[0].is_directory);
    assert_eq!(res[1].name, "test2");
}

#[test]
fn shorter_names_rank_higher_at_equal_tier() {
    let st = state_with(vec![file("xxlog"), file("xlog")]);
    let res = st.search("log");
    assert_eq!(res[0].name, "xlog");
    assert_eq!(res[1].name, "xxlog");
}

#[test]
fn projects_paths_get_a_bonus() {
    let st = state_with(vec![
        entry("data", "/home/u/stuff/data", false, "stuff"),
        entry("data", "/home/u/projects/data", false, "projects"),
    ]);
    let res = st.search("data");
    assert_eq!(res.len(), 2);
    assert_eq!(res[0].path, "/home/u/projects/data");
}

#[test]
fn searches_see_only_the_committed_snapshot() {
    let mut st = state_with(vec![file("old-note")]);
    assert!(st.try_begin_scan());
    // a scan gathers into its own buffer; nothing is visible until commit
    let mut sc = Scanner::new("/r".to_string(), true);
    let d = sc.take_next().unwrap();
    sc.ingest(
        &d,
        &vec![ChildEntry { name: "new-note".to_string(), is_directory: false }],
    );
    let res = st.search("note");
    assert_eq!(res.len(), 1);
    assert_eq!(res[0].name, "old-note");
    assert_eq!(st.index_count(), 1);
    sc.finish();
    let (entries, _progress) = sc.into_results();
    st.commit_scan(entries);
    let res2 = st.search("note");
    assert_eq!(res2.len(), 1);
    assert_eq!(res2[0].name, "new-note");
}
