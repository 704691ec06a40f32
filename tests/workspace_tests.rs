use semtools::cache::CacheManager;
use semtools::outputs::{ApiMode, AskConfig, WorkspaceOutput};
use semtools::store::Store;
use semtools::workspace::{join, Workspace, WorkspaceConfig, WorkspaceError};

#[test]
fn test_workspace_config_default() {
    let config = WorkspaceConfig::default();
    assert_eq!(config.name, "default");
    assert_eq!(config.root_dir, "");
    assert_eq!(config.doc_top_k, 250);
    assert_eq!(config.in_batch_size, 5_000);
    assert_eq!(config.oversample_factor, 3);
}

#[test]
fn test_workspace_set_and_get_active() {
    let active = Workspace::active(Some("test-workspace")).ok().expect("Failed to get active");
    assert_eq!(active, "test-workspace");
    let active_path = Workspace::active_path("/home/u", Some("test-workspace"))
        .ok()
        .expect("Failed to get active path");
    assert!(active_path.contains("test-workspace"));
}

#[test]
fn test_workspace_active_no_workspace() {
    let result = Workspace::active(None);
    assert!(result.is_err());
    let result = Workspace::active_path("/home/u", None);
    assert!(result.is_err());
    assert!(Workspace::active(Some("")).is_err());
}

#[test]
fn test_workspace_root_path() {
    let path = Workspace::root_path("/home/u", "my-workspace");
    assert!(path.contains(".semtools"));
    assert!(path.contains("workspaces"));
    assert!(path.contains("my-workspace"));
    assert_eq!(path, "/home/u/.semtools/workspaces/my-workspace");
}

#[test]
fn test_workspace_config_path() {
    let path = Workspace::config_path_for("/home/u/", "my-workspace");
    assert!(path.contains(".semtools"));
    assert!(path.contains("workspaces"));
    assert!(path.contains("my-workspace"));
    assert!(path.ends_with("config.json"));
    assert_eq!(path, "/home/u/.semtools/workspaces/my-workspace/config.json");
}

#[test]
fn test_workspace_open_with_defaults() {
    let workspace_name = "test-defaults";
    let workspace = Workspace::open("/home/u", Some(workspace_name), None)
        .ok()
        .expect("Failed to open workspace");
    assert_eq!(workspace.config.name, workspace_name);
    assert!(!workspace.config.root_dir.is_empty());
    assert_eq!(workspace.config.doc_top_k, 250);
    assert_eq!(workspace.config.root_dir, "/home/u/.semtools/workspaces/test-defaults");
}

#[test]
fn open_keeps_saved_settings() {
    let saved = WorkspaceConfig {
        name: "kept".to_string(),
        root_dir: "/data/ws".to_string(),
        doc_top_k: 123,
        in_batch_size: 456,
        oversample_factor: 7,
    };
    let ws = Workspace::open("/home/u", Some("other"), Some(saved)).ok().unwrap();
    assert_eq!(ws.config.name, "kept");
    assert_eq!(ws.config.root_dir, "/data/ws");
    assert_eq!(ws.config.doc_top_k, 123);
    assert_eq!(ws.config.in_batch_size, 456);
    assert_eq!(ws.config.oversample_factor, 7);
    let err = Workspace::open("/home/u", None, None);
    assert!(matches!(err, Err(WorkspaceError::NoActiveWorkspace)));
    if let Err(e) = err {
        assert_eq!(e.message(), "No active workspace. Run: workspace select <name>");
    }
}

#[test]
fn join_rules() {
    assert_eq!(join("a", "b"), "a/b");
    assert_eq!(join("a/", "b"), "a/b");
    assert_eq!(join("", "b"), "b");
    assert_eq!(join("a", "/b"), "/b");
}

#[test]
fn skip_text_files_and_missing_files() {
    let cache = CacheManager::new("/cache".to_string());
    assert!(cache.should_skip_file("/x/notes.TXT", true));
    assert!(cache.should_skip_file("/x/readme.md", true));
    assert!(cache.should_skip_file("/x/report.pdf", false));
    assert!(!cache.should_skip_file("/x/report.pdf", true));
    assert!(!cache.should_skip_file("/x/.md", true));
    assert!(!cache.should_skip_file("/x/Makefile", true));
    assert!(cache.should_skip_file("/x/data.Json", true));
    assert!(cache.should_skip_file("/x/notes.txt/.", true));
    assert!(!cache.should_skip_file("/x/..", true));
}

#[test]
fn metadata_path_in_cache_dir() {
    let cache = CacheManager::new("/cache".to_string());
    assert_eq!(cache.get_metadata_path("/docs/a/report.pdf"), "/cache/report.pdf.metadata.json");
    assert_eq!(cache.get_metadata_path("report.pdf/"), "/cache/report.pdf.metadata.json");
    assert_eq!(cache.get_metadata_path("foo.txt/."), "/cache/foo.txt.metadata.json");
}

#[test]
fn ask_defaults() {
    let c = AskConfig::with_api_key(None);
    assert_eq!(c.model, Some("gpt-4o-mini".to_string()));
    assert_eq!(c.max_iterations, Some(20));
    assert!(c.api_mode == ApiMode::Responses);
    assert!(c.base_url.is_none());
    assert!(ApiMode::default() == ApiMode::Responses);
}

#[test]
fn workspace_status_counts_documents() {
    let store = Store::new();
    let out = WorkspaceOutput::describe("w".to_string(), "/r".to_string(), &store);
    assert_eq!(out.total_documents, 0);
    assert_eq!(out.name, "w");
}
