//! The file service's auth and confinement rules, the scanner's ordering,
//! the push channel's framing, and the callback grammar.

use mdagent::callback::{callback_update, parse_oauth_callback};
use mdagent::config::{Config, ServerSettings, StorageMode};
use mdagent::scanner::{clean_children, flatten_file_paths, is_hidden_name, is_md_name};
use mdagent::service::{check_auth, confine_path, make_file_content};
use mdagent::sse::{decode_safe_key, SseFraming};
use mdagent::types::FileItem;

fn node(name: &str, file_type: &str, children: Option<Vec<FileItem>>) -> FileItem {
    FileItem {
        name: name.to_string(),
        path: name.to_string(),
        file_type: file_type.to_string(),
        size: None,
        modified: None,
        children,
    }
}

#[test]
fn auth_requires_exact_bearer_token() {
    let good = Some("Bearer s3cret".to_string());
    assert!(check_auth(&good, "s3cret"));
    assert!(!check_auth(&Some("Bearer wrong".to_string()), "s3cret"));
    assert!(!check_auth(&Some("Basic s3cret".to_string()), "s3cret"));
    assert!(!check_auth(&Some("Bearer s3cret2".to_string()), "s3cret"));
    assert!(!check_auth(&Some("s3cret".to_string()), "s3cret"));
    assert!(!check_auth(&None, "s3cret"));
}

#[test]
fn traversal_is_blocked() {
    assert_eq!(confine_path("../escape.md"), None);
    assert_eq!(confine_path("a/../../x.md"), None);
    assert_eq!(confine_path("/etc/passwd"), None);
    assert_eq!(confine_path(".."), None);
}

#[test]
fn clean_paths_pass_confinement() {
    assert_eq!(confine_path("a/b.md"), Some("a/b.md".to_string()));
    assert_eq!(confine_path("a/./b.md"), Some("a/b.md".to_string()));
    assert_eq!(confine_path("a//b.md"), Some("a/b.md".to_string()));
    assert_eq!(confine_path("a/c/../b.md"), Some("a/b.md".to_string()));
    assert_eq!(confine_path(""), Some("".to_string()));
    assert_eq!(confine_path("notes/a b.md"), Some("notes/a b.md".to_string()));
}

#[test]
fn file_content_sizes_are_bytes() {
    let fc = make_file_content("a.md".to_string(), "héllo".to_string(),
        "2024-01-01T00:00:00Z".to_string());
    assert_eq!(fc.path, "a.md");
    assert_eq!(fc.content, "héllo");
    assert_eq!(fc.size, 6);
    assert_eq!(fc.modified, "2024-01-01T00:00:00Z");
}

#[test]
fn scanner_sorts_folders_first_then_names() {
    let raw = vec![
        node("zeta.md", "file", None),
        node("beta", "folder", Some(Vec::new())),
        node(".hidden.md", "file", None),
        node("alpha.md", "file", None),
        node("gamma", "folder", Some(Vec::new())),
        node(".git", "folder", Some(Vec::new())),
    ];
    let cleaned = clean_children(raw);
    let names: Vec<&str> = cleaned.iter().map(|n| n.name.as_str()).collect();
    assert_eq!(names, vec!["beta", "gamma", "alpha.md", "zeta.md"]);
}

#[test]
fn hidden_and_markdown_names() {
    assert!(is_hidden_name(".git"));
    assert!(!is_hidden_name("notes"));
    assert!(is_md_name("a.md"));
    assert!(is_md_name("a.b.md"));
    assert!(!is_md_name("a.MD"));
    assert!(!is_md_name(".md"));
    assert!(!is_md_name("md"));
    assert!(!is_md_name("a.txt"));
}

#[test]
fn flatten_drops_folders_keeps_files_in_order() {
    let tree = vec![
        node("sub", "folder", Some(vec![node("b.md", "file", None)])),
        node("a.md", "file", None),
    ];
    let flat = flatten_file_paths(&tree);
    let names: Vec<&str> = flat.iter().map(|n| n.name.as_str()).collect();
    assert_eq!(names, vec!["b.md", "a.md"]);
    assert!(flat.iter().all(|n| n.children.is_none()));
}

#[test]
fn sse_first_put_is_swallowed() {
    // a snapshot arrives, then a delta: only the delta is dispatched
    let mut framing = SseFraming::new();
    assert_eq!(framing.handle_line("event: put"), None);
    assert_eq!(framing.handle_line("data: {\"snapshot\":1}"), None);
    assert_eq!(framing.handle_line(""), None);
    assert_eq!(framing.handle_line("event: put"), None);
    assert_eq!(framing.handle_line("data: {\"delta\":2}"), None);
    assert_eq!(framing.handle_line(""), Some("{\"delta\":2}".to_string()));
    assert_eq!(framing.handle_line("event: patch"), None);
    assert_eq!(framing.handle_line("data: {\"delta\":3}"), None);
    assert_eq!(framing.handle_line(""), Some("{\"delta\":3}".to_string()));
}

#[test]
fn sse_keep_alive_is_ignored_and_keeps_the_filter() {
    // a keep-alive before the snapshot must not consume the first-put mark
    let mut framing = SseFraming::new();
    assert_eq!(framing.handle_line("event: keep-alive"), None);
    assert_eq!(framing.handle_line("data: null"), None);
    assert_eq!(framing.handle_line(""), None);
    assert_eq!(framing.handle_line("event: put"), None);
    assert_eq!(framing.handle_line("data: {\"snapshot\":1}"), None);
    assert_eq!(framing.handle_line(""), None);
    assert_eq!(framing.handle_line("event: patch"), None);
    assert_eq!(framing.handle_line("data: {\"x\":1}"), None);
    assert_eq!(framing.handle_line(""), Some("{\"x\":1}".to_string()));
}

#[test]
fn safe_keys_reverse_to_paths() {
    assert_eq!(decode_safe_key("notes_slash_a_dot_md"), "notes/a.md");
    assert_eq!(decode_safe_key("plain"), "plain");
    assert_eq!(decode_safe_key("_dot_"), ".");
}

#[test]
fn callback_parsing() {
    let r = parse_oauth_callback("mdflare://callback?username=alice&token=t123");
    assert_eq!(r, Some(("alice".to_string(), "t123".to_string())));
    let r = parse_oauth_callback("mdflare://callback?token=t123&username=a%40b.c");
    assert_eq!(r, Some(("a@b.c".to_string(), "t123".to_string())));
    let r = parse_oauth_callback("mdflare://callback?username=a+b&token=x");
    assert_eq!(r, Some(("a b".to_string(), "x".to_string())));
    assert_eq!(parse_oauth_callback("mdflare://callback?username=alice"), None);
    assert_eq!(parse_oauth_callback("mdflare://other?username=a&token=b"), None);
    assert_eq!(parse_oauth_callback("https://x/callback?username=a&token=b"), None);
}

#[test]
fn callback_with_invalid_escape_drops_the_pair() {
    // %FF alone is not valid UTF-8, so that pair is dropped
    assert_eq!(parse_oauth_callback("mdflare://callback?username=%FF&token=x"), None);
}

#[test]
fn repeated_callback_is_a_no_op() {
    let config = Config {
        storage_mode: StorageMode::PrivateVault,
        local_path: String::new(),
        api_base: String::new(),
        username: String::new(),
        api_token: "already".to_string(),
        server_port: 7779,
        server_token: "st".to_string(),
    };
    assert!(callback_update(&config, "alice", "already", "/docs/MDFlare").is_none());
    let updated = callback_update(&config, "alice", "fresh", "/docs/MDFlare").unwrap();
    assert!(matches!(updated.storage_mode, StorageMode::Cloud));
    assert_eq!(updated.username, "alice");
    assert_eq!(updated.api_token, "fresh");
    assert_eq!(updated.local_path, "/docs/MDFlare");
}

#[test]
fn config_readiness() {
    let mut config = Config {
        storage_mode: StorageMode::Cloud,
        local_path: String::new(),
        api_base: String::new(),
        username: String::new(),
        api_token: String::new(),
        server_port: 7779,
        server_token: "st".to_string(),
    };
    assert!(!config.is_configured());
    config.username = "alice".to_string();
    config.api_token = "tok".to_string();
    config.local_path = "/notes".to_string();
    assert!(config.is_configured());
    config.storage_mode = StorageMode::PrivateVault;
    assert!(config.is_configured());
    config.local_path = String::new();
    assert!(!config.is_configured());
}

#[test]
fn defaults() {
    let settings = ServerSettings::default();
    assert_eq!(settings.api_base, "https://cloud.mdflare.com");
    let config = Config::default();
    assert!(matches!(config.storage_mode, StorageMode::Cloud));
    assert_eq!(config.server_port, 7779);
    assert!(!config.server_token.is_empty());
    let finalized = config.finalize_loaded(settings.api_base);
    assert_eq!(finalized.api_base, "https://cloud.mdflare.com");
    assert!(!finalized.server_token.is_empty());
}
