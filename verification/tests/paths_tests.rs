//! Path resolution tests.

use wayclip::paths::{config_path, database_dir, database_path, socket_dir, socket_path};

#[test]
fn test_paths_are_valid() {
    let socket = socket_path(Some("/run/user/1000"), 1000);
    assert!(socket.contains("wayclip"));

    let db = database_path(Some("/home/user/.local/share"), Some("/home/user"));
    assert!(db.contains("wayclip"));
    assert!(db.ends_with("history.db"));

    let config = config_path(Some("/home/user/.config"), Some("/home/user"));
    assert!(config.contains("wayclip"));
    assert!(config.ends_with("config.toml"));
}

#[test]
fn socket_path_from_runtime_dir() {
    assert_eq!(
        socket_path(Some("/run/user/1000"), 1000),
        "/run/user/1000/wayclip/wayclip.sock"
    );
    assert_eq!(socket_dir(Some("/run/user/1000"), 1000), "/run/user/1000/wayclip");
}

#[test]
fn socket_path_falls_back_to_tmp_with_uid() {
    assert_eq!(socket_path(None, 1000), "/tmp/wayclip-1000/wayclip.sock");
    assert_eq!(socket_path(None, 0), "/tmp/wayclip-0/wayclip.sock");
    assert_eq!(
        socket_path(None, 18446744073709551615),
        "/tmp/wayclip-18446744073709551615/wayclip.sock"
    );
}

#[test]
fn database_path_fallbacks() {
    assert_eq!(
        database_path(Some("/data"), None),
        "/data/wayclip/history.db"
    );
    assert_eq!(
        database_path(None, Some("/home/u")),
        "/home/u/.local/share/wayclip/history.db"
    );
    assert_eq!(database_path(None, None), "/tmp/wayclip/history.db");
    assert_eq!(database_dir(None, None), "/tmp/wayclip");
}

#[test]
fn config_path_fallbacks() {
    assert_eq!(
        config_path(Some("/home/u/.config"), None),
        "/home/u/.config/wayclip/config.toml"
    );
    assert_eq!(
        config_path(None, Some("/home/u")),
        "/home/u/.config/wayclip/config.toml"
    );
    assert_eq!(config_path(None, None), "/tmp/wayclip/config.toml");
    assert_eq!(
        wayclip::paths::config_dir(None, Some("/home/u")),
        "/home/u/.config/wayclip"
    );
}
