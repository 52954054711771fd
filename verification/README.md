# vscode_launcher

A launcher for VSCode workspaces: it lists the `.code-workspace` files of a
folder, shows which workspaces are open right now (with the memory and CPU
of the VSCode processes behind them), and opens or focuses them.

The logic is a library checked with Verus; the program around it is plain
Rust.

## Layout

- `src/` — the verified library
  - `window_enum` — workspace names read off VSCode window titles
  - `running` — VSCode main processes, the workspace in their argv
    (plain paths and percent-encoded `file://` URIs), process trees, and the
    per-workspace summary of processes and windows
  - `launcher` — where the `code` launcher is looked for, in order
  - `scanner` — the workspace files of a folder, their icons, sorted by
    name ignoring case
  - `config`, `commands`, `error` — the settings (folder, pinned
    workspaces, icons) and what each command does to them
  - `path_identity` — how `Path` reads a path into a prefix (including the
    Windows drive, share, device and verbatim forms), a root and components:
    when two paths are one path (for pinned workspaces, icon keys and the
    per-workspace summary), a path's file name and its parent
  - `text`, `platform` — character helpers and the platform's path rules
- `tests/` — tests of the library
- `app/` — the Tauri program: window, settings file, directory listing,
  process table, window enumeration, process spawning, and CPU sums
