use tempfile::{tempdir, Builder, NamedTempFile};
use vscode_launcher::launcher::{
    code_binary_probes, default_candidates, first_found, join_path, resolve_code_binary_from,
    split_on,
};
use vscode_launcher::Platform;

fn s(p: &std::path::Path) -> String {
    p.to_string_lossy().into_owned()
}

/// Creates the file `dir/name`; it lasts as long as the handle.
fn touch(dir: &std::path::Path, name: &str) -> NamedTempFile {
    Builder::new().prefix(name).rand_bytes(0).tempfile_in(dir).unwrap()
}

#[test]
fn returns_first_existing_candidate() {
    let dir = tempdir().unwrap();
    let real = dir.path().join("code");
    let _f = touch(dir.path(), "code");
    let missing = dir.path().join("missing");
    let found = resolve_code_binary_from(&[s(&missing), s(&real)], None, Platform::Linux).unwrap();
    assert_eq!(found, s(&real));
}

#[test]
fn falls_back_to_path_env() {
    let dir = tempdir().unwrap();
    let code_name = "code";
    let on_path = dir.path().join(code_name);
    let _f = touch(dir.path(), code_name);
    let path = dir.path().to_string_lossy().into_owned();
    let found = resolve_code_binary_from(&[], Some(&path), Platform::Linux).unwrap();
    assert_eq!(found, s(&on_path));
}

#[test]
fn returns_none_when_nothing_found() {
    let dir = tempdir().unwrap();
    let fake_path = dir.path().to_string_lossy().into_owned();
    let result = resolve_code_binary_from(
        &[s(&dir.path().join("nope1")), s(&dir.path().join("nope2"))],
        Some(&fake_path),
        Platform::Linux,
    );
    assert_eq!(result, None);
}

#[test]
fn later_path_entries_are_tried() {
    let empty = tempdir().unwrap();
    let dir = tempdir().unwrap();
    let on_path = dir.path().join("code");
    let _f = touch(dir.path(), "code");
    let path = format!("{}::{}", s(empty.path()), s(dir.path()));
    let found = resolve_code_binary_from(&[], Some(&path), Platform::Linux).unwrap();
    assert_eq!(found, s(&on_path));
}

#[test]
fn probes_follow_candidates_then_path() {
    let probes = code_binary_probes(
        &["/opt/code".to_string()],
        Some("/usr/bin:/bin/:"),
        Platform::Linux,
    );
    assert_eq!(probes, vec!["/opt/code", "/usr/bin/code", "/bin/code", "code"]);
    let win = code_binary_probes(&[], Some("C:\\bin;D:"), Platform::Windows);
    assert_eq!(
        win,
        vec!["C:\\bin\\code.cmd", "C:\\bin\\code.exe", "D:code.cmd", "D:code.exe"]
    );
    assert_eq!(code_binary_probes(&[], None, Platform::Linux), Vec::<String>::new());
}

#[test]
fn split_keeps_empty_pieces() {
    assert_eq!(split_on("a::b", ':'), vec!["a", "", "b"]);
    assert_eq!(split_on("", ':'), vec![""]);
    assert_eq!(split_on(":", ':'), vec!["", ""]);
}

#[test]
fn joins_like_path_join() {
    let j = |b: &str, n: &str, p| join_path(&b.to_string(), &n.to_string(), p);
    assert_eq!(j("/usr/bin", "code", Platform::Linux), "/usr/bin/code");
    assert_eq!(j("/usr/bin/", "code", Platform::Linux), "/usr/bin/code");
    assert_eq!(j("", "code", Platform::Linux), "code");
    assert_eq!(j("C:\\bin", "code.cmd", Platform::Windows), "C:\\bin\\code.cmd");
    assert_eq!(j("C:/bin/", "code.cmd", Platform::Windows), "C:/bin/code.cmd");
    assert_eq!(j("C:", "code.cmd", Platform::Windows), "C:code.cmd");
}

#[test]
fn default_install_locations() {
    assert_eq!(
        default_candidates(Platform::Linux, None),
        vec!["/usr/bin/code", "/usr/local/bin/code", "/snap/bin/code"]
    );
    assert_eq!(
        default_candidates(Platform::MacOs, None),
        vec!["/Applications/Visual Studio Code.app/Contents/Resources/app/bin/code"]
    );
    assert_eq!(
        default_candidates(Platform::Windows, Some("C:\\Users\\u\\AppData\\Local".to_string())),
        vec![
            "C:\\Users\\u\\AppData\\Local\\Programs/Microsoft VS Code/bin/code.cmd",
            "C:\\Program Files\\Microsoft VS Code\\bin\\code.cmd",
        ]
    );
    assert_eq!(
        default_candidates(Platform::Windows, None),
        vec!["C:\\Program Files\\Microsoft VS Code\\bin\\code.cmd"]
    );
}

#[test]
fn split_then_join_gives_the_text_back() {
    for text in ["", ":", "/usr/bin::/bin", "a:b:c:"] {
        assert_eq!(split_on(text, ':').join(":"), text);
    }
}

#[test]
fn first_found_gives_first_probe_answered_true() {
    let probes = vec!["/a/code".to_string(), "/b/code".to_string(), "/c/code".to_string()];
    assert_eq!(first_found(&probes, &[false, true, true]), Some("/b/code".to_string()));
    assert_eq!(first_found(&probes, &[true, false, false]), Some("/a/code".to_string()));
}

#[test]
fn first_found_none_when_nothing_answered_true() {
    let probes = vec!["/a/code".to_string(), "/b/code".to_string()];
    assert_eq!(first_found(&probes, &[false, false]), None);
    assert_eq!(first_found(&probes, &[]), None);
    assert_eq!(first_found(&[], &[true]), None);
}

#[test]
fn first_found_reads_missing_answers_as_not_found() {
    let probes = vec!["/a/code".to_string(), "/b/code".to_string(), "/c/code".to_string()];
    assert_eq!(first_found(&probes, &[false, true]), Some("/b/code".to_string()));
    assert_eq!(first_found(&probes, &[false]), None);
}

#[test]
fn no_probes_resolve_to_none() {
    assert_eq!(resolve_code_binary_from(&[], None, Platform::Linux), None);
}

#[test]
fn joining_onto_a_verbatim_path_rebuilds_it() {
    let w = Platform::Windows;
    let j = |b: &str, n: &str| join_path(&b.to_string(), &n.to_string(), w);
    assert_eq!(j(r"\\?\C:\a\\b", "x"), r"\\?\C:\a\b\x");
    assert_eq!(j(r"\\?\C:\a\.", "x"), r"\\?\C:\a\.\x");
    assert_eq!(j(r"\\?\C:\a", "../y"), r"\\?\C:\y");
    assert_eq!(j(r"\\?\C:\a", "./y/z"), r"\\?\C:\a\y\z");
    assert_eq!(j(r"\\?\C:", "x"), r"\\?\C:\x");
    assert_eq!(j(r"\\?\C:\a/", "x"), r"\\?\C:\a/\x");
    assert_eq!(j(r"\\?\UNC\s\h\d", "x"), r"\\?\UNC\s\h\d\x");
    assert_eq!(j(r"C:\a\\b", "x"), r"C:\a\\b\x");
}
