use spyglass::ChildEntry;
use spyglass::Config;
use spyglass::IndexEntry;
use spyglass::IndexState;
use spyglass::Scanner;
use spyglass::paths::get_config_dir;
use spyglass::paths::get_config_dir_under;
use spyglass::paths::get_config_path;
use spyglass::paths::get_config_path_under;
use spyglass::paths::get_index_path;
use spyglass::paths::get_index_path_under;

fn entry(name: &str, path: &str, is_dir: bool, parent: &str) -> IndexEntry {
    IndexEntry {
        name: name.to_string(),
        path: path.to_string(),
        is_directory: is_dir,
        parent_folder: parent.to_string(),
    }
}

#[test]
fn a_fresh_state_is_empty_and_idle() {
    let st = IndexState::new();
    assert_eq!(st.index_count(), 0);
    let p = st.get_progress();
    assert_eq!(p.total_folders, 0);
    assert_eq!(p.indexed_folders, 0);
    assert_eq!(p.total_files, 0);
    assert_eq!(p.current_folder, "");
    assert!(!p.is_complete);
}

#[test]
fn a_second_scan_start_is_a_no_op() {
    let mut st = IndexState::new();
    st.commit_scan(vec![entry("a", "/r/a", false, "r")]);
    assert!(st.try_begin_scan());
    let before = st.get_progress();
    let count_before = st.index_count();
    assert!(!st.try_begin_scan());
    let after = st.get_progress();
    assert_eq!(st.index_count(), count_before);
    assert_eq!(before.total_folders, after.total_folders);
    assert_eq!(before.indexed_folders, after.indexed_folders);
    assert_eq!(before.total_files, after.total_files);
    assert_eq!(before.is_complete, after.is_complete);
    // committing releases the flag, and a scan may start again
    st.commit_scan(vec![]);
    assert!(st.try_begin_scan());
}

#[test]
fn loading_nothing_reports_false_and_keeps_the_index_empty() {
    let mut st = IndexState::new();
    assert!(!st.load_persisted_index(None));
    assert_eq!(st.index_count(), 0);
    assert!(!st.get_progress().is_complete);
}

#[test]
fn loading_corrupt_text_reports_false_and_changes_nothing() {
    let mut st = IndexState::new();
    st.commit_scan(vec![entry("keep", "/r/keep", false, "r")]);
    for bad in [
        "",
        "not json",
        "{}",
        "[",
        "[{\"name\":\"a\"}]",
        "[{\"name\":\"a\",\"path\":\"/a\",\"is_directory\":false,\"parent_folder\":\"~\"},]",
        "[{\"name\":\"a\",\"path\":\"/a\",\"is_directory\":false,\"parent_folder\":\"~\"}] ",
    ] {
        assert!(!st.load_persisted_index(Some(bad)), "accepted: {bad}");
        assert_eq!(st.index_count(), 1);
        assert_eq!(st.entries[0].name, "keep");
    }
}

#[test]
fn persisting_and_loading_round_trips_every_entry() {
    let originals = vec![
        entry("log", "/home/u/log", true, "u"),
        entry("he\"llo", "/home/u/he\"llo", false, "u"),
        entry("back\\slash", "/home/u/back\\slash", false, "u"),
        entry("line\nbreak", "/home/u/line\nbreak", false, "u"),
        entry("caf\u{e9}", "/home/u/caf\u{e9}", true, "u"),
        entry("\u{65e5}\u{672c}", "/home/u/\u{65e5}\u{672c}", false, "u"),
        entry("", "/", false, "~"),
    ];
    let mut st = IndexState::new();
    st.commit_scan(originals.clone());
    let text = st.index_file_contents();
    let mut fresh = IndexState::new();
    assert!(fresh.load_persisted_index(Some(&text)));
    assert_eq!(fresh.index_count(), originals.len());
    let p = fresh.get_progress();
    assert!(p.is_complete);
    assert_eq!(p.total_files, originals.len());
    for (a, b) in originals.iter().zip(fresh.entries.iter()) {
        assert_eq!(a.name, b.name);
        assert_eq!(a.path, b.path);
        assert_eq!(a.is_directory, b.is_directory);
        assert_eq!(a.parent_folder, b.parent_folder);
    }
}

#[test]
fn an_empty_index_round_trips_too() {
    let st = IndexState::new();
    let text = st.index_file_contents();
    assert_eq!(text, "[]");
    let mut fresh = IndexState::new();
    assert!(fresh.load_persisted_index(Some(&text)));
    assert_eq!(fresh.index_count(), 0);
}

#[test]
fn the_persisted_form_is_plain_json() {
    let mut st = IndexState::new();
    st.commit_scan(vec![
        entry("he\"llo", "/home/u/he\"llo", false, "u"),
        entry("docs", "/home/u/docs", true, "u"),
        entry("tab\there", "/home/u/tab\there", false, "u"),
    ]);
    let text = st.index_file_contents();
    let v: serde_json::Value = serde_json::from_str(&text).expect("valid json");
    let arr = v.as_array().expect("an array");
    assert_eq!(arr.len(), 3);
    assert_eq!(arr[0]["name"].as_str().unwrap(), "he\"llo");
    assert_eq!(arr[0]["is_directory"].as_bool().unwrap(), false);
    assert_eq!(arr[1]["name"].as_str().unwrap(), "docs");
    assert_eq!(arr[1]["is_directory"].as_bool().unwrap(), true);
    assert_eq!(arr[1]["parent_folder"].as_str().unwrap(), "u");
    assert_eq!(arr[2]["name"].as_str().unwrap(), "tab\there");
}

#[test]
fn unicode_escapes_decode_to_their_characters() {
    let text = "[{\"name\":\"\\u0041\\u00e9\",\"path\":\"/A\",\"is_directory\":false,\"parent_folder\":\"~\"}]";
    let mut st = IndexState::new();
    assert!(st.load_persisted_index(Some(text)));
    assert_eq!(st.entries[0].name, "A\u{e9}");
}

#[test]
fn short_escapes_from_other_writers_decode_too() {
    let text = "[{\"name\":\"a\\nb\\tc\\\\d\\\"e\",\"path\":\"/x\",\"is_directory\":true,\"parent_folder\":\"~\"}]";
    let mut st = IndexState::new();
    assert!(st.load_persisted_index(Some(text)));
    assert_eq!(st.entries[0].name, "a\nb\tc\\d\"e");
    assert!(st.entries[0].is_directory);
}

#[test]
fn readers_get_a_full_copy_of_the_snapshot() {
    let mut st = IndexState::new();
    assert_eq!(st.current_snapshot().len(), 0);
    st.commit_scan(vec![
        entry("a", "/r/a", false, "r"),
        entry("b", "/r/b", true, "r"),
    ]);
    let snap = st.current_snapshot();
    assert_eq!(snap.len(), 2);
    assert_eq!(snap[0].name, "a");
    assert_eq!(snap[1].name, "b");
    assert!(snap[1].is_directory);
}

#[test]
fn a_scanned_tree_survives_persist_and_reload() {
    let mut sc = Scanner::new("/r".to_string(), true);
    let d = sc.take_next().unwrap();
    sc.ingest(
        &d,
        &vec![
            ChildEntry { name: "docs".to_string(), is_directory: true },
            ChildEntry { name: "a.txt".to_string(), is_directory: false },
        ],
    );
    let d2 = sc.take_next().unwrap();
    sc.ingest(&d2, &vec![ChildEntry { name: "b.txt".to_string(), is_directory: false }]);
    sc.finish();
    let (entries, _p) = sc.into_results();
    let mut st = IndexState::new();
    st.commit_scan(entries);
    let text = st.index_file_contents();
    let mut fresh = IndexState::new();
    assert!(fresh.load_persisted_index(Some(&text)));
    assert_eq!(fresh.index_count(), st.index_count());
    for (a, b) in st.entries.iter().zip(fresh.entries.iter()) {
        assert_eq!(a.name, b.name);
        assert_eq!(a.path, b.path);
        assert_eq!(a.is_directory, b.is_directory);
        assert_eq!(a.parent_folder, b.parent_folder);
    }
    let found = fresh.search("b.txt");
    assert_eq!(found.len(), 1);
    assert_eq!(found[0].path, "/r/docs/b.txt");
    assert_eq!(found[0].parent_folder, "docs");
}

#[test]
fn the_fixed_paths_hang_off_the_configuration_directory() {
    assert_eq!(
        get_config_dir_under("/home/u/.config"),
        "/home/u/.config/spyglass"
    );
    assert_eq!(
        get_config_path_under("/home/u/.config"),
        "/home/u/.config/spyglass/config.json"
    );
    assert_eq!(
        get_index_path_under("/home/u/.config"),
        "/home/u/.config/spyglass/index.json"
    );
    assert!(get_config_dir().ends_with("/spyglass"));
    assert!(get_config_path().ends_with("/spyglass/config.json"));
    assert!(get_index_path().ends_with("/spyglass/index.json"));
}

#[test]
fn the_starting_configuration_remembers_locations() {
    let c = Config::default();
    assert!(c.root_folder.is_none());
    assert!(c.global_hotkey.is_none());
    assert!(c.remember_location);
    assert!(c.last_location.is_none());
    assert!(c.tabs.is_none());
    assert!(c.active_tab_id.is_none());
}
