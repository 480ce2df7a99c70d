//! The sync engine's decisions and caches on concrete scenarios.

use mdagent::config::{Config, StorageMode};
use mdagent::diff::DiffOp;
use mdagent::engine::{upload_candidates, LocalChange, SyncEngine};
use mdagent::types::FileItem;

fn test_config() -> Config {
    Config {
        storage_mode: StorageMode::Cloud,
        local_path: "/home/user/notes".to_string(),
        api_base: "https://cloud.mdflare.com/".to_string(),
        username: "alice".to_string(),
        api_token: "tok".to_string(),
        server_port: 7779,
        server_token: "st".to_string(),
    }
}

fn file_node(name: &str, path: &str, modified: Option<&str>) -> FileItem {
    FileItem {
        name: name.to_string(),
        path: path.to_string(),
        file_type: "file".to_string(),
        size: Some(1),
        modified: modified.map(|m| m.to_string()),
        children: None,
    }
}

fn folder_node(name: &str, path: &str, children: Vec<FileItem>) -> FileItem {
    FileItem {
        name: name.to_string(),
        path: path.to_string(),
        file_type: "folder".to_string(),
        size: None,
        modified: None,
        children: Some(children),
    }
}

#[test]
fn new_engine_trims_base_url() {
    let eng = SyncEngine::new(&test_config());
    assert_eq!(eng.api.base_url, "https://cloud.mdflare.com");
    assert_eq!(eng.api.username, "alice");
    assert_eq!(eng.api.file_url("notes/a b.md"),
        "https://cloud.mdflare.com/api/alice/file/notes%2Fa%20b.md");
    assert_eq!(eng.api.files_url(), "https://cloud.mdflare.com/api/alice/files");
    assert_eq!(eng.api.status_url(), "https://cloud.mdflare.com/api/alice/agent-status");
    assert_eq!(eng.api.sync_config_url(), "https://cloud.mdflare.com/api/alice/sync-config");
    assert_eq!(eng.api.bearer(), "Bearer tok");
}

#[test]
fn flatten_files_collects_leaves() {
    let tree = vec![
        folder_node("sub", "sub", vec![file_node("b.md", "sub/b.md", Some("t2"))]),
        file_node("a.md", "a.md", Some("t1")),
    ];
    let flat = SyncEngine::flatten_files(&tree);
    assert_eq!(flat.len(), 2);
    assert_eq!(flat[0].0, "sub/b.md");
    assert_eq!(flat[0].1, Some("t2".to_string()));
    assert_eq!(flat[1].0, "a.md");
}

#[test]
fn should_download_on_missing_or_changed() {
    let mut eng = SyncEngine::new(&test_config());
    let m = Some("2024-01-01T00:00:00Z".to_string());
    assert!(eng.should_download("a.md", &m, false));
    assert!(eng.should_download("a.md", &m, true));
    eng.record_download("a.md", "text", &m);
    assert!(!eng.should_download("a.md", &m, true));
    let m2 = Some("2024-02-02T00:00:00Z".to_string());
    assert!(eng.should_download("a.md", &m2, true));
    assert!(!eng.should_download("a.md", &None, true));
}

#[test]
fn startup_upload_of_new_local_file() {
    // a full sync against an empty remote listing uploads the local file
    // and caches its fingerprint
    let mut eng = SyncEngine::new(&test_config());
    let remote: Vec<String> = Vec::new();
    let local = vec!["notes/a.md".to_string()];
    let to_upload = upload_candidates(&local, &remote);
    assert_eq!(to_upload, vec!["notes/a.md".to_string()]);
    eng.record_file("notes/a.md", "hello\nworld");
    assert_eq!(eng.local_hashes.get("notes/a.md"), Some("j968ey".to_string()));
    assert_eq!(eng.local_content_cache.get("notes/a.md"), Some("hello\nworld".to_string()));
}

#[test]
fn upload_candidates_skip_listed_paths() {
    let local = vec!["a.md".to_string(), "b.md".to_string(), "c.md".to_string()];
    let remote = vec!["b.md".to_string()];
    let ups = upload_candidates(&local, &remote);
    assert_eq!(ups, vec!["a.md".to_string(), "c.md".to_string()]);
}

#[test]
fn local_change_decision_unchanged() {
    let mut eng = SyncEngine::new(&test_config());
    eng.record_file("x.md", "a\nb\nc");
    match eng.local_change_decision("x.md", "a\nb\nc") {
        LocalChange::Unchanged => {},
        _ => panic!("matching fingerprint must be a no-op"),
    }
}

#[test]
fn local_change_decision_first_seen() {
    let eng = SyncEngine::new(&test_config());
    match eng.local_change_decision("x.md", "a\nb\nc") {
        LocalChange::Upload { old_hash, diff } => {
            assert!(old_hash.is_none());
            assert!(diff.is_none());
        },
        _ => panic!("a first-seen file must upload"),
    }
}

#[test]
fn local_change_decision_with_diff() {
    let mut eng = SyncEngine::new(&test_config());
    eng.record_file("x.md", "a\nb\nc");
    match eng.local_change_decision("x.md", "a\nB\nc") {
        LocalChange::Upload { old_hash, diff } => {
            assert_eq!(old_hash, Some("1hkgeq".to_string()));
            let ops = diff.expect("a small edit carries a diff");
            assert_eq!(mdagent::diff::apply_line_diff("a\nb\nc", &ops),
                Some("a\nB\nc".to_string()));
        },
        _ => panic!("a changed file must upload"),
    }
}

#[test]
fn local_change_decision_drops_oversized_diff() {
    // an edit whose serialized diff would exceed 10240 bytes uploads the
    // full content without one
    let mut eng = SyncEngine::new(&test_config());
    eng.record_file("x.md", "start");
    let mut big = String::new();
    for i in 0..2000 {
        big.push_str(&format!("line number {}\n", i));
    }
    match eng.local_change_decision("x.md", &big) {
        LocalChange::Upload { old_hash, diff } => {
            assert!(old_hash.is_some());
            assert!(diff.is_none());
        },
        _ => panic!("a changed file must upload"),
    }
}

#[test]
fn push_save_applies_on_matching_fingerprint() {
    // the push carries a diff whose precondition matches: apply, no fetch
    let mut eng = SyncEngine::new(&test_config());
    eng.record_file("x.md", "a\nb\nc");
    let diff = Some(vec![
        DiffOp::Keep(1),
        DiffOp::Del(1),
        DiffOp::Ins(vec!["B".to_string()]),
        DiffOp::Keep(1),
    ]);
    let disk = Some("a\nb\nc".to_string());
    let r = eng.push_save_apply("x.md", &Some("1hkgeq".to_string()), &diff, &disk);
    assert_eq!(r, Some("a\nB\nc".to_string()));
}

#[test]
fn push_save_falls_back_on_stale_fingerprint() {
    // a mismatched precondition token means: fetch the full file instead
    let mut eng = SyncEngine::new(&test_config());
    eng.record_file("x.md", "a\nb\nc");
    let diff = Some(vec![DiffOp::Keep(3)]);
    let disk = Some("a\nb\nc".to_string());
    let r = eng.push_save_apply("x.md", &Some("wrong0".to_string()), &diff, &disk);
    assert_eq!(r, None);
    let r = eng.push_save_apply("x.md", &None, &diff, &disk);
    assert_eq!(r, None);
    let r = eng.push_save_apply("x.md", &Some("1hkgeq".to_string()), &None, &disk);
    assert_eq!(r, None);
    let r = eng.push_save_apply("x.md", &Some("1hkgeq".to_string()), &diff, &None);
    assert_eq!(r, None);
}

#[test]
fn folder_delete_covers_exactly_the_subtree() {
    let mut eng = SyncEngine::new(&test_config());
    eng.record_file("proj/a.md", "1");
    eng.record_file("proj/sub/b.md", "2");
    eng.record_file("other/c.md", "3");
    let mut doomed = eng.folder_delete_candidates("proj");
    doomed.sort();
    assert_eq!(doomed, vec!["proj/a.md".to_string(), "proj/sub/b.md".to_string()]);
    for path in &doomed {
        eng.forget_file(path);
    }
    assert!(!eng.local_hashes.contains_key("proj/a.md"));
    assert!(!eng.local_hashes.contains_key("proj/sub/b.md"));
    assert!(eng.local_hashes.contains_key("other/c.md"));
    assert_eq!(eng.local_content_cache.get("other/c.md"), Some("3".to_string()));
}

#[test]
fn record_file_overwrites_prior_entry() {
    let mut eng = SyncEngine::new(&test_config());
    eng.record_file("x.md", "first");
    eng.record_file("x.md", "second");
    assert_eq!(eng.local_content_cache.get("x.md"), Some("second".to_string()));
    assert_eq!(eng.local_hashes.get("x.md"), Some(SyncEngine::simple_hash("second")));
}

#[test]
fn rename_transfers_caches() {
    let mut eng = SyncEngine::new(&test_config());
    eng.record_file("old.md", "stuff");
    eng.record_rename("old.md", "new.md");
    assert!(!eng.local_hashes.contains_key("old.md"));
    assert_eq!(eng.local_content_cache.get("new.md"), Some("stuff".to_string()));
    assert_eq!(eng.local_hashes.get("new.md"),
        Some(SyncEngine::simple_hash("stuff")));
    // renaming an uncached path changes nothing
    eng.record_rename("ghost.md", "phantom.md");
    assert!(!eng.local_hashes.contains_key("phantom.md"));
}

#[test]
fn relative_paths_under_root() {
    let eng = SyncEngine::new(&test_config());
    assert_eq!(eng.relative_of("/home/user/notes/a.md"), Some("a.md".to_string()));
    assert_eq!(eng.relative_of("/home/user/notes/sub/b.md"), Some("sub/b.md".to_string()));
    assert_eq!(eng.relative_of("/home/user/notes"), Some("".to_string()));
    assert_eq!(eng.relative_of("/somewhere/else.md"), None);
}
