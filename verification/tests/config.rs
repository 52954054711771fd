use vscode_launcher::commands::{get_config, set_icon, set_pinned, set_root_folder, AppState};
use vscode_launcher::config::{config_from_read, Config, ConfigError, ReadOutcome};
use vscode_launcher::error::AppError;
use vscode_launcher::path_identity::same_path;
use vscode_launcher::Platform;

fn is_default(c: &Config) -> bool {
    c.root_folder.is_none() && c.pinned.is_empty() && c.icons.is_empty()
}

#[test]
fn missing_file_returns_default() {
    let cfg = config_from_read(ReadOutcome::NotFound, Platform::Linux).unwrap();
    assert!(is_default(&cfg));
}

#[test]
fn malformed_json_returns_parse_error() {
    let err = serde_json::from_str::<serde_json::Value>("{not valid json").unwrap_err();
    let r = config_from_read(ReadOutcome::Parsed(Err(err)), Platform::Linux);
    assert!(matches!(r, Err(ConfigError::Parse(_))));
}

#[test]
fn unreadable_file_is_an_io_error() {
    let e = std::io::Error::new(std::io::ErrorKind::PermissionDenied, "denied");
    assert!(matches!(config_from_read(ReadOutcome::Failed(e), Platform::Linux), Err(ConfigError::Io(_))));
}

fn state() -> AppState {
    AppState::new("/tmp/cfg.json".to_string(), ReadOutcome::NotFound, Platform::Linux).unwrap()
}

#[test]
fn new_state_starts_from_defaults() {
    let s = state();
    assert!(is_default(&get_config(&s)));
    assert_eq!(s.config_path, "/tmp/cfg.json");
    let e = std::io::Error::new(std::io::ErrorKind::Other, "x");
    assert!(matches!(
        AppState::new("p".to_string(), ReadOutcome::Failed(e), Platform::Linux),
        Err(AppError::Config(ConfigError::Io(_)))
    ));
}

#[test]
fn root_folder_is_set_and_cleared() {
    let mut s = state();
    let c = set_root_folder(&mut s, Some("/home/u/ws".to_string()));
    assert_eq!(c.root_folder, Some("/home/u/ws".to_string()));
    let c = set_root_folder(&mut s, None);
    assert_eq!(c.root_folder, None);
}

#[test]
fn pinning_moves_to_the_end_once() {
    let mut s = state();
    set_pinned(&mut s, "a".to_string(), true);
    set_pinned(&mut s, "b".to_string(), true);
    let c = set_pinned(&mut s, "a".to_string(), true);
    assert_eq!(c.pinned, vec!["b".to_string(), "a".to_string()]);
    let c = set_pinned(&mut s, "b".to_string(), false);
    assert_eq!(c.pinned, vec!["a".to_string()]);
    let c = set_pinned(&mut s, "zzz".to_string(), false);
    assert_eq!(c.pinned, vec!["a".to_string()]);
}

#[test]
fn icons_are_set_replaced_and_cleared() {
    let mut s = state();
    set_icon(&mut s, "w".to_string(), Some("/i/1.png".to_string()));
    let c = set_icon(&mut s, "w".to_string(), Some("/i/2.png".to_string()));
    assert_eq!(c.icons, vec![("w".to_string(), "/i/2.png".to_string())]);
    assert_eq!(c.icon_for(&"w".to_string(), Platform::Linux), Some("/i/2.png".to_string()));
    let c = set_icon(&mut s, "w".to_string(), None);
    assert!(c.icons.is_empty());
    assert_eq!(c.icon_for(&"w".to_string(), Platform::Linux), None);
}

#[test]
fn missing_workspace_message() {
    match AppError::missing_workspace(&"/w/x.code-workspace".to_string()) {
        AppError::Message(m) => assert_eq!(m, "Workspace file no longer exists: /w/x.code-workspace"),
        _ => panic!("wrong variant"),
    }
}

#[test]
fn unpinning_goes_by_path_not_text() {
    let mut s = state();
    set_pinned(&mut s, "/a/b/".to_string(), true);
    set_pinned(&mut s, "/x".to_string(), true);
    let c = set_pinned(&mut s, "/a/b".to_string(), false);
    assert_eq!(c.pinned, vec!["/x".to_string()]);
    let c = set_pinned(&mut s, "/x/./".to_string(), true);
    assert_eq!(c.pinned, vec!["/x/./".to_string()]);
}

#[test]
fn icons_are_keyed_by_path_not_text() {
    let mut s = state();
    set_icon(&mut s, "/a/b".to_string(), Some("/i/1.png".to_string()));
    let c = set_icon(&mut s, "/a/b/".to_string(), Some("/i/2.png".to_string()));
    assert_eq!(c.icons, vec![("/a/b".to_string(), "/i/2.png".to_string())]);
    assert_eq!(c.icon_for(&"/a//b".to_string(), Platform::Linux), Some("/i/2.png".to_string()));
    let c = set_icon(&mut s, "/a/./b".to_string(), None);
    assert!(c.icons.is_empty());
}

#[test]
fn parsed_icons_for_one_path_merge() {
    let c = Config {
        root_folder: None,
        pinned: vec![],
        icons: vec![
            ("/a/b".to_string(), "/i/1.png".to_string()),
            ("/c".to_string(), "/i/c.png".to_string()),
            ("/a/b/".to_string(), "/i/2.png".to_string()),
        ],
    };
    let s = AppState::new("p".to_string(), ReadOutcome::Parsed(Ok(c)), Platform::Linux).unwrap();
    assert_eq!(
        s.config.icons,
        vec![
            ("/a/b".to_string(), "/i/2.png".to_string()),
            ("/c".to_string(), "/i/c.png".to_string()),
        ]
    );
}

#[test]
fn same_path_on_unix() {
    let p = Platform::Linux;
    let t = |a: &str, b: &str| same_path(&a.to_string(), &b.to_string(), p);
    assert!(t("/a/b", "/a/b/"));
    assert!(t("/a/b", "/a//b"));
    assert!(t("/a/b", "/a/./b"));
    assert!(t("a/b", "a/b/."));
    assert!(!t("/a/b", "a/b"));
    assert!(!t("./a", "a"));
    assert!(!t("/a/../b", "/b"));
    assert!(!t("a\\b", "a/b"));
    assert!(t("", ""));
    assert!(!t("", "."));
}

#[test]
fn same_path_on_windows() {
    let p = Platform::Windows;
    let t = |a: &str, b: &str| same_path(&a.to_string(), &b.to_string(), p);
    assert!(t("C:\\x", "C:/x"));
    assert!(t("c:\\x\\", "C:\\x"));
    assert!(!t("C:\\x", "C:x"));
    assert!(!t("C:\\x", "D:\\x"));
    assert!(!t("C:\\X", "C:\\x"));
    assert!(t("\\\\srv\\share\\a", "\\\\srv\\share\\a"));
}

#[test]
fn same_path_on_windows_prefixes() {
    let p = Platform::Windows;
    let t = |a: &str, b: &str| same_path(&a.to_string(), &b.to_string(), p);
    assert!(t(r"\\s\h\x", r"\\s\h\\x"));
    assert!(t(r"\\s\h\x", "//s/h/x/"));
    assert!(t(r"\\s\h", r"\\s\h\"));
    assert!(!t(r"\\s\h\x", r"\\s\H\x"));
    assert!(!t(r"\\s\h\x", r"\\t\h\x"));
    assert!(t(r"\\?\C:\a", r"\\?\c:\a"));
    assert!(!t(r"\\?\C:\a\.", r"\\?\C:\a"));
    assert!(!t(r"\\?\C:\a/b", r"\\?\C:\a\b"));
    assert!(!t(r"\\?\C:\a", r"C:\a"));
    assert!(t(r"\\.\COM1\x", r"\\.\COM1\\x"));
    assert!(!t(r"C:.\a", r"C:a"));
    assert!(t(r"C:a\.", r"C:a"));
}

#[test]
fn icons_for_one_share_path_replace_each_other() {
    let mut s = AppState::new("p".to_string(), ReadOutcome::NotFound, Platform::Windows).unwrap();
    set_pinned(&mut s, r"\\s\h\x".to_string(), true);
    let c = set_pinned(&mut s, r"\\s\h\\x".to_string(), false);
    assert!(c.pinned.is_empty());
    set_icon(&mut s, r"\\s\h\x".to_string(), Some("1.png".to_string()));
    let c = set_icon(&mut s, r"\\s\h\\x".to_string(), Some("2.png".to_string()));
    assert_eq!(c.icons, vec![(r"\\s\h\x".to_string(), "2.png".to_string())]);
}

#[test]
fn settings_file_lies_in_the_config_folder() {
    assert_eq!(
        vscode_launcher::config::config_file_in(&"/home/u/.config".to_string(), Platform::Linux),
        "/home/u/.config/vscode-launcher/config.json"
    );
    assert_eq!(
        vscode_launcher::config::config_file_in(&"C:\\Users\\u\\AppData\\Roaming".to_string(), Platform::Windows),
        "C:\\Users\\u\\AppData\\Roaming\\vscode-launcher\\config.json"
    );
}
