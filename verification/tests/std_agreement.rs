//! The library's own readings of paths and texts agree with std on this
//! platform.
use std::path::Path;

use vscode_launcher::launcher::{join_path, split_on};
use vscode_launcher::running::{file_name, workspace_display_name};
use vscode_launcher::text::{is_whitespace, to_ascii_lower};
use vscode_launcher::Platform;

#[test]
fn whitespace_matches_char_is_whitespace() {
    for u in 0u32..=0x10FFFF {
        if let Some(c) = char::from_u32(u) {
            assert_eq!(is_whitespace(c), c.is_whitespace(), "{:#x}", u);
        }
    }
}

#[test]
fn ascii_lower_matches_std() {
    for u in 0u32..0x3000 {
        if let Some(c) = char::from_u32(u) {
            assert_eq!(to_ascii_lower(c), c.to_ascii_lowercase());
        }
    }
}

const PATHS: &[&str] = &[
    "", "/", "a", "/a", "a/", "a//", "/a/b", "/a/b/", "a/.", "a/./", ".", "./", "..", "a/..",
    "/.", "a/b/..", ".a", "a/.b", "/a/b.code-workspace", "/a/.code-workspace",
    "x.code-workspace/", "x.code-workspace/.", "a/./b.code-workspace", "//x.code-workspace",
    "C:\\w\\team.code-workspace",
];

#[test]
fn file_name_matches_path_file_name() {
    for p in PATHS {
        let cs: Vec<char> = p.chars().collect();
        let mine = file_name(&cs, Platform::Linux).map(|v| v.into_iter().collect::<String>());
        let std = Path::new(p).file_name().map(|s| s.to_string_lossy().into_owned());
        assert_eq!(mine, std, "{:?}", p);
    }
}

#[test]
fn display_name_matches_stripped_file_name() {
    for p in PATHS {
        let mine = workspace_display_name(&p.to_string(), Platform::Linux);
        let std = Path::new(p)
            .file_name()
            .map(|s| s.to_string_lossy().into_owned())
            .and_then(|f| f.strip_suffix(".code-workspace").map(|s| s.to_string()))
            .filter(|s| !s.is_empty());
        assert_eq!(mine, std, "{:?}", p);
    }
}

#[test]
fn join_matches_path_join() {
    for base in ["", "/", "/usr/bin", "/usr/bin/", "rel", "a//"] {
        for name in ["code", "x.png", "Programs/Microsoft VS Code/bin/code.cmd"] {
            let mine = join_path(&base.to_string(), &name.to_string(), Platform::Linux);
            let std = Path::new(base).join(name).to_string_lossy().into_owned();
            assert_eq!(mine, std, "{:?} {:?}", base, name);
        }
    }
}

#[test]
fn split_matches_str_split() {
    for text in ["", ":", "::", "a", "a:b", ":a:", "/usr/bin:/bin"] {
        let std: Vec<String> = text.split(':').map(|s| s.to_string()).collect();
        assert_eq!(split_on(text, ':'), std);
    }
}
