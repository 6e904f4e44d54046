use dataflex_lsp::index::{IndexerConfig, IndexerState, WorkspaceInfo};

#[test]
fn parses_ini_descriptor() {
    let text = "[Properties]\nVersion=19.1\n\n[Projects]\nProject1=Order.src\nProject2=WebOrder.src\n";
    let info = WorkspaceInfo::load_from_descriptor(text, "/work/orders".to_string());
    assert_eq!(info.get_root_folder(), "/work/orders");
    assert_eq!(info.get_dataflex_version(), Some(&"19.1".to_string()));
    let projects = info.projects();
    assert_eq!(projects.len(), 2);
    assert_eq!(projects[0].main_file, "/work/orders/AppSrc/Order.src");
    assert_eq!(projects[1].main_file, "/work/orders/AppSrc/WebOrder.src");
}

#[test]
fn malformed_descriptor_falls_back_to_empty_workspace() {
    let info = WorkspaceInfo::load_from_descriptor("not an ini \u{0}", "/work/root".to_string());
    assert_eq!(info.get_root_folder(), "/work/root");
    assert_eq!(info.projects().len(), 0);
}

#[test]
fn empty_workspace_has_no_version() {
    let info = WorkspaceInfo::new();
    assert_eq!(info.get_root_folder(), "");
    assert_eq!(info.get_dataflex_version(), None);
    assert_eq!(info.projects().len(), 0);
}

#[test]
fn config_without_registry_has_no_system_paths() {
    let config = IndexerConfig::new();
    assert!(config.system_path(None).is_none());
    assert!(config.system_path(Some(&"19.1".to_string())).is_none());
}

#[test]
fn indexer_states_are_distinct() {
    assert_ne!(IndexerState::Initializing, IndexerState::InitialIndexing);
    assert_ne!(IndexerState::InitialIndexing, IndexerState::Inactive);
}
