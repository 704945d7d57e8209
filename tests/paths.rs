use nockapp::{default_data_dir, join, resolve_data_dir};

#[test]
fn default_dir_is_named_after_app() {
    assert_eq!(default_data_dir("nockapp"), "./.data.nockapp");
}

#[test]
fn configured_absolute_dir_wins() {
    assert_eq!(resolve_data_dir(Some("/srv/data"), Some("/work"), Some("/home/u")).unwrap(), "/srv/data");
    assert_eq!(resolve_data_dir(Some("/srv/data"), None, None).unwrap(), "/srv/data");
}

#[test]
fn configured_relative_dir_joins_current() {
    assert_eq!(resolve_data_dir(Some("data"), Some("/work"), Some("/home/u")).unwrap(), "/work/data");
    assert_eq!(resolve_data_dir(Some("data"), Some("/work/"), None).unwrap(), "/work/data");
    assert_eq!(resolve_data_dir(Some("data"), None, Some("/home/u")).unwrap(), "data");
}

#[test]
fn blank_configured_dir_falls_back_to_home() {
    assert_eq!(resolve_data_dir(Some("  \t"), Some("/work"), Some("/home/u")).unwrap(), "/home/u/.nockapp");
    assert_eq!(resolve_data_dir(Some("\u{3000}\n"), None, Some("/home/u")).unwrap(), "/home/u/.nockapp");
    assert_eq!(resolve_data_dir(None, Some("/work"), Some("/home/u")).unwrap(), "/home/u/.nockapp");
    assert_eq!(resolve_data_dir(None, Some("/work"), None), None);
    assert_eq!(resolve_data_dir(Some(" "), Some("/work"), None), None);
}

#[test]
fn join_handles_absolute_and_empty() {
    assert_eq!(join("/a", "/b"), "/b");
    assert_eq!(join("", "b"), "b");
    assert_eq!(join("/a", "b"), "/a/b");
}
