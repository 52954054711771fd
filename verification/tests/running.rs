use std::path::PathBuf;

use vscode_launcher::running::{
    aggregate_workspaces, build_children_map, decode_file_uri_path,
    extract_workspace_path_from_args, find_main_processes, hex_digit, is_main_electron,
    normalize_workspace_path, percent_decode, sum_tree, workspace_display_name, CpuShare,
    ProcessInfo,
};
use vscode_launcher::launcher::join_path;
use vscode_launcher::window_enum::WorkspaceWindow;
use vscode_launcher::Platform;

fn strings(v: &[&str]) -> Vec<String> {
    v.iter().map(|s| s.to_string()).collect()
}

#[test]
fn finds_plain_workspace_arg() {
    let args = vec![
        "/usr/bin/code".to_string(),
        "/home/u/projects/alpha.code-workspace".to_string(),
    ];
    assert_eq!(
        extract_workspace_path_from_args(&args).map(PathBuf::from),
        Some(PathBuf::from("/home/u/projects/alpha.code-workspace"))
    );
}

#[test]
fn ignores_non_workspace_args() {
    let args = vec![
        "/usr/bin/code".to_string(),
        "--new-window".to_string(),
        "/tmp/regular/file.txt".to_string(),
    ];
    assert_eq!(extract_workspace_path_from_args(&args).map(PathBuf::from), None);
}

#[test]
fn strips_file_prefix() {
    let args = vec![
        "Code.exe".to_string(),
        "--file=C:\\users\\u\\proj.code-workspace".to_string(),
    ];
    assert_eq!(
        extract_workspace_path_from_args(&args).map(PathBuf::from),
        Some(PathBuf::from("C:\\users\\u\\proj.code-workspace"))
    );
}

#[test]
fn empty_args_returns_none() {
    assert_eq!(extract_workspace_path_from_args(&[]).map(PathBuf::from), None);
}

#[test]
fn returns_first_workspace_when_multiple() {
    let args = vec![
        "code".to_string(),
        "/a.code-workspace".to_string(),
        "/b.code-workspace".to_string(),
    ];
    assert_eq!(
        extract_workspace_path_from_args(&args).map(PathBuf::from),
        Some(PathBuf::from("/a.code-workspace"))
    );
}

#[test]
fn decodes_windows_file_uri_from_separate_arg() {
    let args = vec![
        "C:\\Users\\u\\AppData\\Local\\Programs\\Microsoft VS Code\\Code.exe".to_string(),
        "--file-uri".to_string(),
        "file:///d%3A/vault/work/vscode/personal.code-workspace".to_string(),
    ];
    assert_eq!(
        extract_workspace_path_from_args(&args).map(PathBuf::from),
        Some(PathBuf::from("d:\\vault\\work\\vscode\\personal.code-workspace"))
    );
}

#[test]
fn decodes_posix_file_uri() {
    let args = vec![
        "code".to_string(),
        "file:///home/u/my%20projects/alpha.code-workspace".to_string(),
    ];
    assert_eq!(
        extract_workspace_path_from_args(&args).map(PathBuf::from),
        Some(PathBuf::from("/home/u/my projects/alpha.code-workspace"))
    );
}

#[test]
fn decodes_joined_file_uri_flag() {
    let args = vec![
        "code".to_string(),
        "--file-uri=file:///c%3A/proj/x.code-workspace".to_string(),
    ];
    assert_eq!(
        extract_workspace_path_from_args(&args).map(PathBuf::from),
        Some(PathBuf::from("c:\\proj\\x.code-workspace"))
    );
}

#[test]
fn chromium_subprocess_is_ignored() {
    let args = vec![
        "C:\\Program Files\\Microsoft VS Code\\Code.exe".to_string(),
        "--type=renderer".to_string(),
        "--user-data-dir=C:\\Users\\u\\AppData\\Roaming\\Code".to_string(),
        "D:\\proj\\workspace.code-workspace".to_string(),
    ];
    assert_eq!(extract_workspace_path_from_args(&args).map(PathBuf::from), None);
}

#[test]
fn utility_subprocess_is_ignored() {
    let args = vec![
        "Code.exe".to_string(),
        "--type=utility".to_string(),
        "--utility-sub-type=node.mojom.NodeService".to_string(),
    ];
    assert_eq!(extract_workspace_path_from_args(&args).map(PathBuf::from), None);
}

#[test]
fn code_cmd_wrapper_is_ignored() {
    let args = vec![
        "Code/bin/code.cmd D:\\vault\\work\\vscode\\ci-templates.code-workspace".to_string(),
    ];
    assert_eq!(extract_workspace_path_from_args(&args).map(PathBuf::from), None);
}

#[test]
fn cli_js_helper_is_ignored() {
    let args = vec![
        "C:\\Program Files\\Microsoft VS Code\\Code.exe".to_string(),
        "C:\\Program Files\\Microsoft VS Code\\resources\\app\\out\\cli.js".to_string(),
        "D:\\proj\\x.code-workspace".to_string(),
    ];
    assert_eq!(extract_workspace_path_from_args(&args).map(PathBuf::from), None);
}

#[test]
fn wrapper_detection_ignores_ascii_case() {
    let args = strings(&["C:\\VS\\bin\\CODE.CMD", "D:\\p\\x.code-workspace"]);
    assert_eq!(extract_workspace_path_from_args(&args), None);
    assert!(!is_main_electron(&args));
}

#[test]
fn folder_uri_flag_is_stripped() {
    let args = strings(&["code", "--folder-uri=/srv/a.code-workspace"]);
    assert_eq!(
        extract_workspace_path_from_args(&args),
        Some("/srv/a.code-workspace".to_string())
    );
}

#[test]
fn bare_extension_in_uri_needs_suffix() {
    let args = strings(&["code", "file:///home/u/notes.txt"]);
    assert_eq!(extract_workspace_path_from_args(&args), None);
}

#[test]
fn main_electron_detection() {
    assert!(is_main_electron(&strings(&["/usr/share/code/code", "--no-sandbox"])));
    assert!(!is_main_electron(&[]));
    assert!(!is_main_electron(&strings(&["code", "--type=gpu-process"])));
    assert!(!is_main_electron(&strings(&["node", "/opt/code/out/cli.js"])));
}

#[test]
fn hex_digits() {
    assert_eq!(hex_digit(b'0'), Some(0));
    assert_eq!(hex_digit(b'9'), Some(9));
    assert_eq!(hex_digit(b'a'), Some(10));
    assert_eq!(hex_digit(b'F'), Some(15));
    assert_eq!(hex_digit(b'g'), None);
    assert_eq!(hex_digit(b'%'), None);
}

#[test]
fn percent_decoding() {
    assert_eq!(percent_decode("a%20b"), "a b");
    assert_eq!(percent_decode("%C3%A9t%C3%A9"), "\u{e9}t\u{e9}");
    assert_eq!(percent_decode("100%"), "100%");
    assert_eq!(percent_decode("%4"), "%4");
    assert_eq!(percent_decode("%zz%41"), "%zzA");
    assert_eq!(percent_decode("%FF"), "\u{fffd}");
}

#[test]
fn file_uri_paths() {
    assert_eq!(decode_file_uri_path("/d%3A/a/b"), "d:\\a\\b");
    assert_eq!(decode_file_uri_path("c:/x/y"), "c:\\x\\y");
    assert_eq!(decode_file_uri_path("/home/u/x%20y"), "/home/u/x y");
    assert_eq!(decode_file_uri_path("/c:"), "/c:");
}

#[test]
fn windows_paths_are_normalized() {
    let p = "\\\\?\\d:\\work\\a.code-workspace".to_string();
    assert_eq!(normalize_workspace_path(&p, Platform::Windows), "D:\\work\\a.code-workspace");
    assert_eq!(normalize_workspace_path(&p, Platform::Linux), p);
    let q = "/home/u/a.code-workspace".to_string();
    assert_eq!(normalize_workspace_path(&q, Platform::Windows), q);
}

#[test]
fn display_names_of_workspace_paths() {
    let name = |p: &str, pl| workspace_display_name(&p.to_string(), pl);
    assert_eq!(name("/home/u/personal.code-workspace", Platform::Linux), Some("personal".to_string()));
    assert_eq!(name("C:\\w\\team.code-workspace", Platform::Windows), Some("team".to_string()));
    assert_eq!(name("C:\\w\\team.code-workspace", Platform::Linux), Some("C:\\w\\team".to_string()));
    assert_eq!(name("C:team.code-workspace", Platform::Windows), Some("team".to_string()));
    assert_eq!(name("/a/.code-workspace", Platform::Linux), None);
    assert_eq!(name("/a/x.code-workspace/", Platform::Linux), Some("x".to_string()));
    assert_eq!(name("/a/x.txt", Platform::Linux), None);
    assert_eq!(name("", Platform::Linux), None);
}

fn proc(pid: u32, parent: Option<u32>, memory: u64, args: &[&str]) -> ProcessInfo {
    ProcessInfo { pid, parent, memory, args: strings(args) }
}

fn table() -> Vec<ProcessInfo> {
    vec![
        proc(1, None, 5, &["init"]),
        proc(10, Some(1), 100, &["/usr/share/code/code", "/w/alpha.code-workspace"]),
        proc(11, Some(10), 20, &["/usr/share/code/code", "--type=renderer"]),
        proc(12, Some(11), 3, &["/usr/share/code/code", "--type=utility"]),
        proc(20, Some(1), 50, &["/usr/share/code/code", "/w/beta.code-workspace"]),
        proc(30, Some(1), 7, &["/usr/share/code/code"]),
    ]
}

#[test]
fn children_map_lists_children_in_order() {
    let ps = table();
    let m = build_children_map(&ps);
    assert_eq!(m.get(&1), Some(&vec![10, 20, 30]));
    assert_eq!(m.get(&10), Some(&vec![11]));
    assert_eq!(m.get(&11), Some(&vec![12]));
    assert_eq!(m.get(&12), None);
}

#[test]
fn tree_sums_cover_descendants() {
    let ps = table();
    let m = build_children_map(&ps);
    let t = sum_tree(10, &m, &ps).unwrap();
    assert_eq!(t.ram, 123);
    let mut members = t.members.clone();
    members.sort();
    assert_eq!(members, vec![10, 11, 12]);
    let all = sum_tree(1, &m, &ps).unwrap();
    assert_eq!(all.ram, 185);
    let unknown = sum_tree(99, &m, &ps).unwrap();
    assert_eq!(unknown.ram, 0);
    assert_eq!(unknown.members, vec![99]);
}

#[test]
fn tree_sum_overflow_is_reported() {
    let ps = vec![proc(1, None, u64::MAX, &["a"]), proc(2, Some(1), 1, &["b"])];
    let m = build_children_map(&ps);
    assert!(sum_tree(1, &m, &ps).is_none());
    assert_eq!(sum_tree(2, &m, &ps).unwrap().ram, 1);
}

#[test]
fn cyclic_parents_terminate() {
    let ps = vec![proc(1, Some(2), 1, &["a"]), proc(2, Some(1), 2, &["b"])];
    let m = build_children_map(&ps);
    assert_eq!(sum_tree(1, &m, &ps).unwrap().ram, 3);
}

#[test]
fn main_processes_are_found() {
    let ps = table();
    let mains = find_main_processes(&ps, Platform::Linux).unwrap();
    let pids: Vec<u32> = mains.iter().map(|m| m.pid).collect();
    assert_eq!(pids, vec![1, 10, 20, 30]);
    assert_eq!(mains[0].tree_ram, 185);
    assert_eq!(mains[0].argv_workspace, None);
    assert_eq!(mains[1].tree_ram, 123);
    assert_eq!(mains[1].argv_workspace, Some("/w/alpha.code-workspace".to_string()));
    assert_eq!(mains[3].argv_workspace, None);
}

fn win(pid: u32, name: &str, hwnd: i64) -> WorkspaceWindow {
    WorkspaceWindow { pid, workspace_name: name.to_string(), hwnd }
}

#[test]
fn workspaces_are_aggregated_per_window() {
    let ps = table();
    let mains = find_main_processes(&ps, Platform::Linux).unwrap();
    let windows = vec![
        win(10, "alpha", 1001),
        win(10, "notes", 1002),
        win(999, "stray", 1003),
        win(10, "alpha", 1004),
    ];
    let us = aggregate_workspaces(&mains, &windows, Platform::Linux).unwrap();
    assert_eq!(us.len(), 3);
    assert_eq!(us[0].path, "/w/alpha.code-workspace");
    assert_eq!(us[0].display_name_hint, None);
    assert_eq!(us[0].window_count, 2);
    assert_eq!(us[0].ram_bytes, 82);
    assert_eq!(us[0].hwnd, Some(1001));
    assert_eq!(
        us[0].cpu_shares,
        vec![CpuShare { main_pid: 10, divisor: 3 }, CpuShare { main_pid: 10, divisor: 3 }]
    );
    assert_eq!(us[1].path, "");
    assert_eq!(us[1].display_name_hint, Some("notes".to_string()));
    assert_eq!(us[1].window_count, 1);
    assert_eq!(us[1].ram_bytes, 41);
    assert_eq!(us[2].path, "/w/beta.code-workspace");
    assert_eq!(us[2].window_count, 1);
    assert_eq!(us[2].ram_bytes, 50);
    assert_eq!(us[2].hwnd, None);
    assert_eq!(us[2].cpu_shares, vec![CpuShare { main_pid: 20, divisor: 1 }]);
}

#[test]
fn aggregate_overflow_is_reported() {
    let ps = vec![
        proc(1, None, u64::MAX, &["code", "/w/a.code-workspace"]),
        proc(2, None, 1, &["code", "/w/a.code-workspace"]),
    ];
    let mains = find_main_processes(&ps, Platform::Linux).unwrap();
    let windows = vec![win(1, "a", 1), win(2, "a", 2)];
    assert!(aggregate_workspaces(&mains, &windows, Platform::Linux).is_none());
}

#[test]
fn escaped_bytes_decode_back() {
    let text = "h\u{e9} /%";
    let escaped: String = text.bytes().map(|b| format!("%{:02X}", b)).collect();
    assert_eq!(percent_decode(&escaped), text);
    assert_eq!(percent_decode("plain/path"), "plain/path");
}

#[test]
fn normalizing_twice_changes_nothing() {
    for p in ["\\\\?\\c:\\w\\a.code-workspace", "d:\\x", "/home/u/x"] {
        let once = normalize_workspace_path(&p.to_string(), Platform::Windows);
        assert_eq!(normalize_workspace_path(&once, Platform::Windows), once);
    }
}

#[test]
fn window_counts_add_up() {
    let ps = table();
    let mains = find_main_processes(&ps, Platform::Linux).unwrap();
    let windows = vec![win(10, "alpha", 1), win(10, "x", 2), win(20, "beta", 3), win(7, "y", 4)];
    let us = aggregate_workspaces(&mains, &windows, Platform::Linux).unwrap();
    let total: u32 = us.iter().map(|u| u.window_count).sum();
    assert_eq!(total, 3);
    for u in &us {
        assert_eq!(u.window_count as usize, u.cpu_shares.len());
    }
}

#[test]
fn escaped_text_decodes_to_itself() {
    let x = "héllo wörld ✓";
    let escaped: String = x.bytes().map(|b| format!("%{:02X}", b)).collect();
    assert_eq!(percent_decode(&escaped), x);
    assert_eq!(percent_decode("plain text, no escapes"), "plain text, no escapes");
}

#[test]
fn display_name_reads_back_from_joined_path() {
    for (dir, p) in [("/home/u/ws", Platform::Linux), ("", Platform::Linux), ("C:", Platform::Windows), ("D:\\w\\", Platform::Windows)] {
        let name = "my proj".to_string();
        let file = format!("{}.code-workspace", name);
        let joined = join_path(&dir.to_string(), &file, p);
        assert_eq!(workspace_display_name(&joined, p), Some(name));
    }
}

#[test]
fn workspaces_are_keyed_by_path_not_text() {
    let ps = vec![
        proc(1, None, 10, &["code", "/w/a.code-workspace"]),
        proc(2, None, 20, &["code", "/w//a.code-workspace"]),
        proc(3, None, 30, &["code", "/w/./b.code-workspace"]),
    ];
    let mains = find_main_processes(&ps, Platform::Linux).unwrap();
    let us = aggregate_workspaces(&mains, &vec![], Platform::Linux).unwrap();
    assert_eq!(us.len(), 2);
    assert_eq!(us[0].path, "/w/a.code-workspace");
    assert_eq!(us[0].ram_bytes, 30);
    assert_eq!(us[0].window_count, 2);
    assert_eq!(us[1].path, "/w/./b.code-workspace");
}

#[test]
fn display_names_of_windows_prefixed_paths() {
    let w = Platform::Windows;
    let d = |p: &str| workspace_display_name(&p.to_string(), w);
    assert_eq!(d(r"\\s\x.code-workspace"), None);
    assert_eq!(d(r"\\s\h\x.code-workspace"), Some("x".to_string()));
    assert_eq!(d(r"\\?\C:\w\x.code-workspace"), Some("x".to_string()));
    assert_eq!(d(r"\\?\x.code-workspace"), None);
    assert_eq!(d(r"\\.\x.code-workspace"), None);
    assert_eq!(d(r"C:x.code-workspace"), Some("x".to_string()));
    assert_eq!(d(r"C:\w\x.code-workspace\."), Some("x".to_string()));
    assert_eq!(d(r"\\?\C:\w\x.code-workspace\."), None);
}

#[test]
fn tree_sum_follows_any_children_map() {
    let ps = vec![proc(1, None, 10, &["a"]), proc(2, None, 20, &["b"]), proc(9, None, 90, &["c"])];
    let mut children: std::collections::HashMap<u32, Vec<u32>> = std::collections::HashMap::new();
    children.insert(1, vec![2, 3]);
    children.insert(3, vec![4]);
    let t = sum_tree(1, &children, &ps).unwrap();
    let mut members = t.members.clone();
    members.sort();
    assert_eq!(members, vec![1, 2, 3, 4]);
    assert_eq!(t.ram, 30);
}
