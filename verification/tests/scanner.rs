use std::path::{Path, PathBuf};

use tempfile::{tempdir, Builder, NamedTempFile, TempDir};
use vscode_launcher::scanner::{
    icon_candidate_paths, scan, select_workspace_entries, sort_by_keys, DirEntryInfo,
    WorkspaceEntry,
};
use vscode_launcher::path_identity::path_parent_exec;
use vscode_launcher::Platform;

/// A folder whose entries the test names; they exist on disk as long as
/// the value lives.
struct Folder {
    root: TempDir,
    names: Vec<String>,
    files: Vec<NamedTempFile>,
    dirs: Vec<TempDir>,
}

impl Folder {
    fn new() -> Folder {
        Folder { root: tempdir().unwrap(), names: Vec::new(), files: Vec::new(), dirs: Vec::new() }
    }

    fn path(&self) -> &Path {
        self.root.path()
    }

    fn file(&mut self, name: &str) {
        let f = Builder::new().prefix(name).rand_bytes(0).tempfile_in(self.root.path()).unwrap();
        self.files.push(f);
        self.names.push(name.to_string());
    }

    fn dir(&mut self, name: &str) -> PathBuf {
        let d = Builder::new().prefix(name).rand_bytes(0).tempdir_in(self.root.path()).unwrap();
        let p = d.path().to_path_buf();
        self.dirs.push(d);
        self.names.push(name.to_string());
        p
    }

    /// The folder's entries as a directory listing gives them.
    fn scan(&self) -> Vec<WorkspaceEntry> {
        let entries = self
            .names
            .iter()
            .map(|n| DirEntryInfo {
                path: self.path().join(n).to_string_lossy().into_owned(),
                file_name: Some(n.clone()),
            })
            .collect();
        scan(entries, Platform::Linux)
    }
}

#[test]
fn only_code_workspace_files_are_returned() {
    let mut dir = Folder::new();
    dir.file("a.code-workspace");
    dir.file("b.code-workspace");
    dir.file("readme.txt");
    dir.file("other.json");
    let entries = dir.scan();
    let names: Vec<_> = entries.iter().map(|e| e.display_name.clone()).collect();
    assert_eq!(names, vec!["a".to_string(), "b".to_string()]);
}

#[test]
fn scan_is_not_recursive() {
    let mut dir = Folder::new();
    dir.file("top.code-workspace");
    let sub = dir.dir("sub");
    let _nested = Builder::new().prefix("nested.code-workspace").rand_bytes(0).tempfile_in(&sub).unwrap();
    let entries = dir.scan();
    assert_eq!(entries.len(), 1);
    assert_eq!(entries[0].display_name, "top");
}

#[test]
fn auto_icon_matches_same_basename_png() {
    let mut dir = Folder::new();
    dir.file("proj.code-workspace");
    dir.file("proj.png");
    let entries = dir.scan();
    assert_eq!(
        entries[0].auto_icon.as_ref().map(PathBuf::from),
        Some(dir.path().join("proj.png"))
    );
}

#[test]
fn auto_icon_prefers_png_over_jpg() {
    let mut dir = Folder::new();
    dir.file("proj.code-workspace");
    dir.file("proj.jpg");
    dir.file("proj.png");
    let entries = dir.scan();
    assert_eq!(
        PathBuf::from(entries[0].auto_icon.as_ref().unwrap()).extension().unwrap(),
        "png"
    );
}

#[test]
fn auto_icon_none_when_no_sibling_image() {
    let mut dir = Folder::new();
    dir.file("proj.code-workspace");
    let entries = dir.scan();
    assert_eq!(entries[0].auto_icon, None);
}

#[test]
fn sort_is_case_insensitive() {
    let mut dir = Folder::new();
    dir.file("Zed.code-workspace");
    dir.file("alpha.code-workspace");
    let entries = dir.scan();
    let names: Vec<_> = entries.iter().map(|e| e.display_name.clone()).collect();
    assert_eq!(names, vec!["alpha".to_string(), "Zed".to_string()]);
}

#[test]
fn directories_and_bare_extension_are_skipped() {
    let mut dir = Folder::new();
    dir.dir("d.code-workspace");
    dir.file(".code-workspace");
    dir.file("x.y.code-workspace");
    let entries = dir.scan();
    let names: Vec<_> = entries.iter().map(|e| e.display_name.clone()).collect();
    assert_eq!(names, vec!["x.y".to_string()]);
}

#[test]
fn jpeg_is_the_last_choice() {
    let mut dir = Folder::new();
    dir.file("p.code-workspace");
    dir.file("p.jpeg");
    let entries = dir.scan();
    assert_eq!(
        entries[0].auto_icon.as_ref().map(PathBuf::from),
        Some(dir.path().join("p.jpeg"))
    );
}

fn entry(name: &str) -> WorkspaceEntry {
    WorkspaceEntry {
        path: format!("/w/{}.code-workspace", name),
        display_name: name.to_string(),
        auto_icon: None,
    }
}

#[test]
fn sorting_is_stable_on_equal_keys() {
    let v = vec![entry("b2"), entry("a"), entry("b1")];
    let keys = vec!["b".to_string(), "a".to_string(), "b".to_string()];
    let r = sort_by_keys(v, &keys);
    let names: Vec<_> = r.iter().map(|e| e.display_name.clone()).collect();
    assert_eq!(names, vec!["a", "b2", "b1"]);
}

#[test]
fn sorting_orders_by_code_point() {
    let v = vec![entry("ab"), entry("a"), entry("b"), entry("")];
    let keys = vec!["ab".to_string(), "a".to_string(), "b".to_string(), "".to_string()];
    let r = sort_by_keys(v, &keys);
    let names: Vec<_> = r.iter().map(|e| e.display_name.clone()).collect();
    assert_eq!(names, vec!["", "a", "ab", "b"]);
}

#[test]
fn icon_candidates_in_order() {
    let got = icon_candidate_paths(&"/ws".to_string(), &"proj".to_string(), Platform::Linux);
    assert_eq!(
        got,
        vec![
            "/ws/proj.png".to_string(),
            "/ws/proj.svg".to_string(),
            "/ws/proj.jpg".to_string(),
            "/ws/proj.jpeg".to_string(),
        ]
    );
}

#[test]
fn icon_candidates_on_windows_use_backslash() {
    let got = icon_candidate_paths(&"C:\\ws".to_string(), &"proj".to_string(), Platform::Windows);
    assert_eq!(got[0], "C:\\ws\\proj.png".to_string());
    assert_eq!(got[3], "C:\\ws\\proj.jpeg".to_string());
}

fn dir_entry(path: &str, name: Option<&str>) -> DirEntryInfo {
    DirEntryInfo { path: path.to_string(), file_name: name.map(|n| n.to_string()) }
}

#[test]
fn selects_exactly_the_workspace_files() {
    let entries = vec![
        dir_entry("/r/a.code-workspace", Some("a.code-workspace")),
        dir_entry("/r/sub.code-workspace", Some("sub.code-workspace")),
        dir_entry("/r/readme.txt", Some("readme.txt")),
        dir_entry("/r/.code-workspace", Some(".code-workspace")),
        dir_entry("/r/b.code-workspace", Some("b.code-workspace")),
        dir_entry("/r/odd", None),
    ];
    let files = vec![true, false, true, true, true, true];
    let icons = vec![Some("/r/a.png".to_string()), None, None, None, None, None];
    let got = select_workspace_entries(&entries, &files, &icons);
    assert_eq!(
        got,
        vec![
            WorkspaceEntry {
                path: "/r/a.code-workspace".to_string(),
                display_name: "a".to_string(),
                auto_icon: Some("/r/a.png".to_string()),
            },
            WorkspaceEntry {
                path: "/r/b.code-workspace".to_string(),
                display_name: "b".to_string(),
                auto_icon: None,
            },
        ]
    );
}

#[test]
fn select_treats_missing_answers_as_no_file() {
    let entries = vec![
        dir_entry("/r/a.code-workspace", Some("a.code-workspace")),
        dir_entry("/r/b.code-workspace", Some("b.code-workspace")),
    ];
    let got = select_workspace_entries(&entries, &vec![true], &vec![]);
    assert_eq!(got.len(), 1);
    assert_eq!(got[0].display_name, "a");
    assert_eq!(got[0].auto_icon, None);
}

#[test]
fn parents_as_path_parent_gives_them() {
    let u = |p: &str| path_parent_exec(&p.to_string(), Platform::Linux);
    assert_eq!(u("/a/b/x"), Some("/a/b".to_string()));
    assert_eq!(u("/a/b/./x"), Some("/a/b".to_string()));
    assert_eq!(u("/a//b//x/"), Some("/a//b".to_string()));
    assert_eq!(u("/x"), Some("/".to_string()));
    assert_eq!(u("x"), Some("".to_string()));
    assert_eq!(u("/"), None);
    assert_eq!(u(""), None);
    let w = |p: &str| path_parent_exec(&p.to_string(), Platform::Windows);
    assert_eq!(w(r"C:\a\x"), Some(r"C:\a".to_string()));
    assert_eq!(w(r"C:\x"), Some(r"C:\".to_string()));
    assert_eq!(w(r"C:x"), Some("C:".to_string()));
    assert_eq!(w(r"\\s\h\x"), Some(r"\\s\h\".to_string()));
    assert_eq!(w(r"\\s\h"), None);
}

#[test]
fn icon_is_found_next_to_the_entry() {
    let dir = tempdir().unwrap();
    let root = dir.path().to_string_lossy().into_owned();
    let _ws = Builder::new().prefix("proj.code-workspace").rand_bytes(0).tempfile_in(dir.path()).unwrap();
    let _icon = Builder::new().prefix("proj.png").rand_bytes(0).tempfile_in(dir.path()).unwrap();
    let entries = vec![DirEntryInfo {
        path: format!("{}/./proj.code-workspace", root),
        file_name: Some("proj.code-workspace".to_string()),
    }];
    let got = scan(entries, Platform::Linux);
    assert_eq!(got.len(), 1);
    assert_eq!(got[0].auto_icon, Some(format!("{}/proj.png", root)));
}
