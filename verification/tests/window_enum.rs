use vscode_launcher::window_enum::{
    enumerate_workspace_windows, extract_workspace_name_from_title,
    workspace_name_from_title_chars,
};

#[test]
fn plain_workspace_window() {
    assert_eq!(
        extract_workspace_name_from_title("personal (Workspace) - Visual Studio Code"),
        Some("personal".to_string())
    );
}

#[test]
fn bullet_prefix_unsaved() {
    assert_eq!(
        extract_workspace_name_from_title("\u{25cf} personal (Workspace) - Visual Studio Code"),
        Some("personal".to_string())
    );
}

#[test]
fn active_editor_prefix() {
    assert_eq!(
        extract_workspace_name_from_title("file.md - personal (Workspace) - Visual Studio Code"),
        Some("personal".to_string())
    );
}

#[test]
fn bullet_and_active_editor() {
    assert_eq!(
        extract_workspace_name_from_title(
            "\u{25cf} file.md - personal (Workspace) - Visual Studio Code"
        ),
        Some("personal".to_string())
    );
}

#[test]
fn single_folder_window_without_workspace_suffix() {
    assert_eq!(
        extract_workspace_name_from_title("my-project - Visual Studio Code"),
        None
    );
}

#[test]
fn non_vscode_window() {
    assert_eq!(extract_workspace_name_from_title("Chrome - Google"), None);
}

#[test]
fn empty_title() {
    assert_eq!(extract_workspace_name_from_title(""), None);
}

#[test]
fn empty_workspace_name() {
    assert_eq!(extract_workspace_name_from_title(" - Visual Studio Code"), None);
}

#[test]
fn tolerant_of_extra_spaces_around_workspace_suffix() {
    assert_eq!(
        extract_workspace_name_from_title("personal  (Workspace)  - Visual Studio Code"),
        Some("personal".to_string())
    );
}

#[test]
fn dash_in_workspace_display_name() {
    assert_eq!(
        extract_workspace_name_from_title("my-proj (Workspace) - Visual Studio Code"),
        Some("my-proj".to_string())
    );
}

#[test]
fn name_after_last_separator_wins() {
    assert_eq!(
        extract_workspace_name_from_title("a - b - team notes (Workspace) - Visual Studio Code"),
        Some("team notes".to_string())
    );
}

#[test]
fn only_punctuation_is_no_name() {
    assert_eq!(
        extract_workspace_name_from_title("\u{25cf} ... (Workspace) - Visual Studio Code"),
        None
    );
}

#[test]
fn unicode_name_is_kept() {
    assert_eq!(
        extract_workspace_name_from_title("\u{00e9}t\u{00e9} (Workspace) - Visual Studio Code"),
        Some("\u{00e9}t\u{00e9}".to_string())
    );
}

#[test]
fn trailing_whitespace_inside_name_is_trimmed() {
    assert_eq!(
        extract_workspace_name_from_title("x - notes\u{3000} (Workspace) - Visual Studio Code"),
        Some("notes".to_string())
    );
}

#[test]
fn flags_decide_where_the_name_starts() {
    let title: Vec<char> = "_ab (Workspace) - Visual Studio Code".chars().collect();
    let mut flags: Vec<bool> = title.iter().map(|c| c.is_alphanumeric()).collect();
    assert_eq!(
        workspace_name_from_title_chars(&title, &flags),
        Some("ab".to_string())
    );
    flags[0] = true;
    assert_eq!(
        workspace_name_from_title_chars(&title, &flags),
        Some("_ab".to_string())
    );
}

#[test]
fn no_windows_where_none_can_be_listed() {
    assert!(enumerate_workspace_windows().is_empty());
}

#[test]
fn non_alphanumeric_prefix_keeps_name() {
    let t = "proj (Workspace) - Visual Studio Code";
    for b in ["\u{25cf} ", "** ", " - ", "• -"] {
        assert_eq!(
            extract_workspace_name_from_title(&format!("{}{}", b, t)),
            extract_workspace_name_from_title(t)
        );
    }
    let u = "- x (Workspace) - Visual Studio Code";
    assert_eq!(
        extract_workspace_name_from_title(&format!(" -{}", u)),
        extract_workspace_name_from_title(u)
    );
}

#[test]
fn editor_prefix_keeps_name() {
    let t = "my-proj (Workspace) - Visual Studio Code";
    for e in ["file.md", "a - b", "", "x -"] {
        assert_eq!(
            extract_workspace_name_from_title(&format!("{} - {}", e, t)),
            Some("my-proj".to_string())
        );
    }
}
