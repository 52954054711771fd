//! Running VSCode workspaces: which processes are VSCode main processes, the
//! workspace each was launched with, and the per-workspace summary of the
//! processes and windows that are open.
use std::collections::{HashMap, HashSet};
use vstd::prelude::*;
use vstd::utf8::{decode_utf8, encode_scalar, encode_utf8, valid_utf8};

use crate::launcher::{joined_path, joined_with, main_separator, pushed_parts};
use crate::path_identity::{
    path_id,
    body_start, is_sep_in, is_slash, is_verbatim, lemma_prefix_bounds, prefix_of, keep_part, last_name, last_name_exec, parts_from, path_parts,
    same_path, same_path_spec,
};
use crate::platform::Platform;
use crate::window_enum::WorkspaceWindow;
use crate::text::{
    ascii_lower_seq, ascii_lowercase, chars_of, contains, contains_seq, ends_with, has_prefix,
    has_suffix, matches_at_exec, opt_view, starts_with, string_chars, string_of, subvec,
};

verus! {

// ---------------------------------------------------------------------------
// Percent-decoding and `file://` URIs
// ---------------------------------------------------------------------------

/// The value of an ASCII hexadecimal digit.
pub open spec fn hex_value(b: u8) -> Option<u8> {
    if 0x30 <= b <= 0x39 {
        Some((b - 0x30) as u8)
    } else if 0x61 <= b <= 0x66 {
        Some((b - 0x61 + 10) as u8)
    } else if 0x41 <= b <= 0x46 {
        Some((b - 0x41 + 10) as u8)
    } else {
        None
    }
}

/// Whether `b[i..i + 3]` is an escape `%XX` with two hexadecimal digits.
pub open spec fn escape_at(b: Seq<u8>, i: int) -> bool {
    &&& 0 <= i
    &&& b[i] == 0x25u8
    &&& i + 2 < b.len()
    &&& hex_value(b[i + 1]) is Some
    &&& hex_value(b[i + 2]) is Some
}

/// The byte that the escape at `b[i..i + 3]` stands for.
pub open spec fn escaped_byte(b: Seq<u8>, i: int) -> u8 {
    (hex_value(b[i + 1])->0 * 16 + hex_value(b[i + 2])->0) as u8
}

/// `b[i..]` with every `%XX` escape replaced by the byte it stands for;
/// a `%` that does not start such an escape stays as it is.
pub open spec fn percent_decode_from(b: Seq<u8>, i: int) -> Seq<u8>
    decreases b.len() - i,
{
    if i >= b.len() {
        seq![]
    } else if escape_at(b, i) {
        seq![escaped_byte(b, i)] + percent_decode_from(b, i + 3)
    } else {
        seq![b[i]] + percent_decode_from(b, i + 1)
    }
}

/// Names what `String::from_utf8_lossy` makes of bytes `b`: the text they
/// encode, with each invalid sequence replaced by U+FFFD.
pub uninterp spec fn utf8_lossy(b: Seq<u8>) -> Seq<char>;

/// Calls `String::from_utf8_lossy`. Its result is named by `utf8_lossy`;
/// of valid UTF-8 it is the text that the bytes encode, as its
/// documentation says.
#[verifier::external_body]
fn from_utf8_lossy(b: &[u8]) -> (r: String)
    ensures
        r@ == utf8_lossy(b@),
        valid_utf8(b@) ==> r@ == decode_utf8(b@),
{
    String::from_utf8_lossy(b).into_owned()
}

/// The text of `s` once its percent escapes are decoded, read as UTF-8.
pub open spec fn percent_decoded(s: Seq<char>) -> Seq<char> {
    utf8_lossy(percent_decode_from(encode_utf8(s), 0))
}

/// An ASCII letter.
pub open spec fn is_ascii_alpha_byte(b: u8) -> bool {
    (0x41 <= b <= 0x5A) || (0x61 <= b <= 0x7A)
}

/// Whether the bytes at `b[k..]` start like a Windows drive: a letter, then
/// `:` or its escape `%3A`/`%3a`, in at least four bytes.
pub open spec fn drive_at(b: Seq<u8>, k: int) -> bool {
    &&& b.len() - k >= 4
    &&& is_ascii_alpha_byte(b[k])
    &&& (b[k + 1] == 0x3Au8 || (b[k + 1] == 0x25u8 && b[k + 2] == 0x33u8 && (b[k + 3] == 0x61u8
        || b[k + 3] == 0x41u8)))
}

/// Whether the path part of a `file://` URI names a Windows drive path
/// (`/d%3A/...` or `d:/...`), whatever the host system.
pub open spec fn is_windows_uri_path(rest: Seq<char>) -> bool {
    let b = encode_utf8(rest);
    let k = if b.len() > 0 && b[0] == 0x2Fu8 {
        1int
    } else {
        0int
    };
    drive_at(b, k)
}

/// Every `/` turned into `\`.
pub open spec fn backslashed(s: Seq<char>) -> Seq<char> {
    s.map_values(|c: char| if c == '/' { '\\' } else { c })
}

/// The native path that the path part `rest` of a `file://` URI stands for:
/// a Windows drive path loses its leading `/` and gets `\` separators;
/// escapes are decoded in either case.
pub open spec fn file_uri_path(rest: Seq<char>) -> Seq<char> {
    let b = encode_utf8(rest);
    let win = is_windows_uri_path(rest);
    let start = if win && b.len() > 0 && b[0] == 0x2Fu8 {
        1int
    } else {
        0int
    };
    let decoded = utf8_lossy(percent_decode_from(b, start));
    if win {
        backslashed(decoded)
    } else {
        decoded
    }
}

/// The value of an ASCII hexadecimal digit, `None` for any other byte.
pub fn hex_digit(b: u8) -> (r: Option<u8>)
    ensures
        r == hex_value(b),
{
    if 0x30 <= b && b <= 0x39 {
        Some(b - 0x30)
    } else if 0x61 <= b && b <= 0x66 {
        Some(b - 0x61 + 10)
    } else if 0x41 <= b && b <= 0x46 {
        Some(b - 0x41 + 10)
    } else {
        None
    }
}

/// `b[start..]` with its percent escapes decoded.
fn percent_decode_bytes(b: &[u8], start: usize) -> (r: Vec<u8>)
    requires
        start <= b@.len(),
    ensures
        r@ == percent_decode_from(b@, start as int),
{
    let mut out: Vec<u8> = Vec::new();
    let mut i = start;
    while i < b.len()
        invariant
            start <= i <= b@.len(),
            out@ + percent_decode_from(b@, i as int) == percent_decode_from(b@, start as int),
        decreases b@.len() - i,
    {
        let ghost prev = out@;
        if b[i] == 0x25 && b.len() - i > 2 {
            let hi = hex_digit(b[i + 1]);
            let lo = hex_digit(b[i + 2]);
            if let (Some(h), Some(l)) = (hi, lo) {
                assert(escape_at(b@, i as int));
                out.push(h * 16 + l);
                assert(out@ + percent_decode_from(b@, i + 3) =~= prev + percent_decode_from(
                    b@,
                    i as int,
                ));
                i += 3;
                continue ;
            }
        }
        assert(!escape_at(b@, i as int));
        out.push(b[i]);
        assert(out@ + percent_decode_from(b@, i + 1) =~= prev + percent_decode_from(
            b@,
            i as int,
        ));
        i += 1;
    }
    assert(percent_decode_from(b@, i as int) =~= seq![]);
    assert(out@ =~= out@ + percent_decode_from(b@, i as int));
    out
}

/// Decodes the percent escapes of `s` and reads the bytes as UTF-8, each
/// invalid sequence becoming U+FFFD.
pub fn percent_decode(s: &str) -> (r: String)
    ensures
        r@ == percent_decoded(s@),
        valid_utf8(percent_decode_from(encode_utf8(s@), 0)) ==> r@ == decode_utf8(
            percent_decode_from(encode_utf8(s@), 0),
        ),
{
    let b = s.as_bytes();
    let out = percent_decode_bytes(b, 0);
    from_utf8_lossy(out.as_slice())
}

/// Every `/` turned into `\`.
pub fn backslash_separators(s: &String) -> (r: String)
    ensures
        r@ == backslashed(s@),
{
    let cs = string_chars(s);
    let mut out: Vec<char> = Vec::new();
    let mut i: usize = 0;
    while i < cs.len()
        invariant
            i <= cs.len(),
            cs@ == s@,
            out@ == backslashed(cs@.subrange(0, i as int)),
        decreases cs.len() - i,
    {
        let c = cs[i];
        if c == '/' {
            out.push('\\');
        } else {
            out.push(c);
        }
        i += 1;
        assert(out@ =~= backslashed(cs@.subrange(0, i as int)));
    }
    assert(cs@.subrange(0, cs.len() as int) =~= cs@);
    string_of(&out)
}

/// An ASCII letter.
fn is_ascii_alpha(b: u8) -> (r: bool)
    ensures
        r == is_ascii_alpha_byte(b),
{
    (0x41 <= b && b <= 0x5A) || (0x61 <= b && b <= 0x7A)
}

/// Decodes the path part of a `file://` URI into a native path.
/// Windows URIs look like `/d%3A/path/foo` and become `d:\path\foo`;
/// POSIX URIs look like `/home/u/foo` and stay `/home/u/foo`.
/// A drive letter followed by `:` or `%3A` marks a Windows URI whatever
/// the host system.
pub fn decode_file_uri_path(rest: &str) -> (r: String)
    ensures
        r@ == file_uri_path(rest@),
{
    let b = rest.as_bytes();
    let k: usize = if b.len() > 0 && b[0] == 0x2F {
        1
    } else {
        0
    };
    let win = b.len() >= k + 4 && is_ascii_alpha(b[k]) && (b[k + 1] == 0x3A || (b[k + 1] == 0x25
        && b[k + 2] == 0x33 && (b[k + 3] == 0x61 || b[k + 3] == 0x41)));
    assert(win == is_windows_uri_path(rest@));
    let start: usize = if win && b.len() > 0 && b[0] == 0x2F {
        1
    } else {
        0
    };
    let out = percent_decode_bytes(b, start);
    let decoded = from_utf8_lossy(out.as_slice());
    if win {
        backslash_separators(&decoded)
    } else {
        decoded
    }
}

// ---------------------------------------------------------------------------
// Workspace paths in a process's argv
// ---------------------------------------------------------------------------

/// The file extension that marks a workspace file.
pub open spec fn workspace_ext() -> Seq<char> {
    ".code-workspace"@
}

/// The scheme prefix of a file URI.
pub open spec fn file_scheme() -> Seq<char> {
    "file://"@
}

/// `t` without its first `n` characters.
pub open spec fn drop_prefix(t: Seq<char>, n: nat) -> Seq<char> {
    t.subrange(n as int, t.len() as int)
}

/// The workspace path that one argv entry names: an entry ending in
/// `.code-workspace`, either a plain path or a `file://` URI.
pub open spec fn arg_workspace_path(s: Seq<char>) -> Option<Seq<char>> {
    if !has_suffix(s, workspace_ext()) {
        None
    } else if has_prefix(s, file_scheme()) {
        Some(file_uri_path(drop_prefix(s, file_scheme().len())))
    } else {
        Some(s)
    }
}

/// An argv entry without a leading `--file=`, `--folder=`, `--file-uri=`
/// or `--folder-uri=` (the first of them that matches).
pub open spec fn strip_flag_prefix(a: Seq<char>) -> Seq<char> {
    if has_prefix(a, "--file="@) {
        drop_prefix(a, "--file="@.len())
    } else if has_prefix(a, "--folder="@) {
        drop_prefix(a, "--folder="@.len())
    } else if has_prefix(a, "--file-uri="@) {
        drop_prefix(a, "--file-uri="@.len())
    } else if has_prefix(a, "--folder-uri="@) {
        drop_prefix(a, "--folder-uri="@.len())
    } else {
        a
    }
}

/// The texts of an argv.
pub open spec fn arg_views(args: Seq<String>) -> Seq<Seq<char>> {
    args.map_values(|a: String| a@)
}

/// A Chromium subprocess (renderer, utility, GPU, ...): some entry starts
/// with `--type=`.
pub open spec fn is_chromium_subprocess(args: Seq<Seq<char>>) -> bool {
    exists|i: int| 0 <= i < args.len() && has_prefix(#[trigger] args[i], "--type="@)
}

/// Whether one argv entry names a CLI wrapper (`code.cmd` or `cli.js`, in
/// any ASCII case).
pub open spec fn names_cli_wrapper(a: Seq<char>) -> bool {
    contains_seq(ascii_lower_seq(a), "code.cmd"@) || contains_seq(ascii_lower_seq(a), "cli.js"@)
}

/// A CLI wrapper process: some entry names `code.cmd` or `cli.js`.
pub open spec fn is_cli_wrapper(args: Seq<Seq<char>>) -> bool {
    exists|i: int| 0 <= i < args.len() && names_cli_wrapper(#[trigger] args[i])
}

/// The workspace path of the first argv entry that names one.
pub open spec fn first_workspace_arg(args: Seq<Seq<char>>) -> Option<Seq<char>>
    decreases args.len(),
{
    if args.len() == 0 {
        None
    } else {
        match arg_workspace_path(strip_flag_prefix(args[0])) {
            Some(p) => Some(p),
            None => first_workspace_arg(args.drop_first()),
        }
    }
}

/// The workspace that a process was launched with: none for Chromium
/// subprocesses and CLI wrappers, else the first entry that names one.
pub open spec fn workspace_path_from_args(args: Seq<Seq<char>>) -> Option<Seq<char>> {
    if is_chromium_subprocess(args) || is_cli_wrapper(args) {
        None
    } else {
        first_workspace_arg(args)
    }
}

/// A main Electron process: some argv, no `--type=`, not a CLI wrapper.
pub open spec fn is_main_electron_args(args: Seq<Seq<char>>) -> bool {
    args.len() > 0 && !is_chromium_subprocess(args) && !is_cli_wrapper(args)
}

/// Whether some entry of `args` starts with `--type=`.
fn has_type_flag(args: &[String]) -> (r: bool)
    ensures
        r == is_chromium_subprocess(arg_views(args@)),
{
    let flag = chars_of("--type=");
    let ghost v = arg_views(args@);
    let mut i: usize = 0;
    while i < args.len()
        invariant
            i <= args@.len(),
            v == arg_views(args@),
            flag@ == "--type="@,
            forall|j: int| 0 <= j < i ==> !has_prefix(#[trigger] v[j], "--type="@),
        decreases args@.len() - i,
    {
        let a = string_chars(&args[i]);
        if starts_with(&a, &flag) {
            assert(has_prefix(v[i as int], "--type="@));
            return true;
        }
        i += 1;
    }
    false
}

/// Whether some entry of `args` names `code.cmd` or `cli.js`.
fn has_cli_wrapper(args: &[String]) -> (r: bool)
    ensures
        r == is_cli_wrapper(arg_views(args@)),
{
    let cmd = chars_of("code.cmd");
    let js = chars_of("cli.js");
    let ghost v = arg_views(args@);
    let mut i: usize = 0;
    while i < args.len()
        invariant
            i <= args@.len(),
            v == arg_views(args@),
            cmd@ == "code.cmd"@,
            js@ == "cli.js"@,
            forall|j: int| 0 <= j < i ==> !names_cli_wrapper(#[trigger] v[j]),
        decreases args@.len() - i,
    {
        let a = string_chars(&args[i]);
        let lc = ascii_lowercase(&a);
        if contains(&lc, &cmd) || contains(&lc, &js) {
            assert(names_cli_wrapper(v[i as int]));
            return true;
        }
        i += 1;
    }
    false
}

/// True if `args` look like a main Electron process: not empty, no
/// `--type=`, not a CLI wrapper.
pub fn is_main_electron(args: &[String]) -> (r: bool)
    ensures
        r == is_main_electron_args(arg_views(args@)),
{
    if args.len() == 0 {
        return false;
    }
    if has_type_flag(args) {
        return false;
    }
    !has_cli_wrapper(args)
}

/// `a` without the first of the flag prefixes that it starts with.
fn strip_flag(a: &Vec<char>) -> (r: Vec<char>)
    ensures
        r@ == strip_flag_prefix(a@),
{
    let f1 = chars_of("--file=");
    let f2 = chars_of("--folder=");
    let f3 = chars_of("--file-uri=");
    let f4 = chars_of("--folder-uri=");
    if starts_with(a, &f1) {
        subvec(a, f1.len(), a.len())
    } else if starts_with(a, &f2) {
        subvec(a, f2.len(), a.len())
    } else if starts_with(a, &f3) {
        subvec(a, f3.len(), a.len())
    } else if starts_with(a, &f4) {
        subvec(a, f4.len(), a.len())
    } else {
        subvec(a, 0, a.len())
    }
}

/// The workspace path that one argv entry names, if it refers to a
/// `.code-workspace` file, as a plain path or as a `file://` URI with
/// percent escapes.
pub fn workspace_arg_to_path(arg: &str) -> (r: Option<String>)
    ensures
        opt_view(r) == arg_workspace_path(arg@),
{
    let s = &chars_of(arg);
    let ext = chars_of(".code-workspace");
    let scheme = chars_of("file://");
    if !ends_with(s, &ext) {
        return None;
    }
    if starts_with(s, &scheme) {
        let rest = string_of(&subvec(s, scheme.len(), s.len()));
        return Some(decode_file_uri_path(rest.as_str()));
    }
    Some(string_of(s))
}

/// The workspace path that a process's argv carries. Chromium subprocesses
/// (with a `--type=` entry) and CLI wrappers (`code.cmd`, `cli.js`) carry
/// none; otherwise the first entry that names a `.code-workspace` file,
/// after a `--file=`, `--folder=`, `--file-uri=` or `--folder-uri=` prefix
/// is dropped.
pub fn extract_workspace_path_from_args(args: &[String]) -> (r: Option<String>)
    ensures
        opt_view(r) == workspace_path_from_args(arg_views(args@)),
{
    if has_type_flag(args) || has_cli_wrapper(args) {
        return None;
    }
    let ghost v = arg_views(args@);
    assert(v.subrange(0, v.len() as int) =~= v);
    let mut i: usize = 0;
    while i < args.len()
        invariant
            i <= args@.len(),
            v == arg_views(args@),
            !is_chromium_subprocess(v),
            !is_cli_wrapper(v),
            first_workspace_arg(v) == first_workspace_arg(v.subrange(i as int, v.len() as int)),
        decreases args@.len() - i,
    {
        let a = string_chars(&args[i]);
        let stripped = strip_flag(&a);
        let ghost rest = v.subrange(i as int, v.len() as int);
        assert(rest[0] == v[i as int]);
        assert(rest.drop_first() =~= v.subrange(i + 1, v.len() as int));
        let stripped = string_of(&stripped);
        match workspace_arg_to_path(stripped.as_str()) {
            Some(p) => {
                return Some(p);
            },
            None => {},
        }
        i += 1;
    }
    assert(v.subrange(i as int, v.len() as int) =~= Seq::<Seq<char>>::empty());
    None
}


// ---------------------------------------------------------------------------
// Workspace paths: normal form and display name
// ---------------------------------------------------------------------------

/// A path separator on `platform`: `/` everywhere, `\` on Windows too.
pub open spec fn is_path_separator(c: char, platform: Platform) -> bool {
    c == '/' || (platform == Platform::Windows && c == '\\')
}

/// An ASCII letter.
pub open spec fn is_ascii_letter(c: char) -> bool {
    ('A' <= c && c <= 'Z') || ('a' <= c && c <= 'z')
}

/// Whether `p` starts with a Windows drive `X:`.
pub open spec fn has_drive_prefix(p: Seq<char>) -> bool {
    p.len() >= 2 && is_ascii_letter(p[0]) && p[1] == ':'
}

/// The last component of path `p`, the way `Path::file_name` reads a path:
/// trailing separators and `.` components do not count; a Windows prefix
/// (a drive, a share, a device or verbatim prefix) is no component; there
/// is none where the path ends in its prefix or root, or in `..`.
pub open spec fn path_file_name(p: Seq<char>, platform: Platform) -> Option<Seq<char>> {
    last_name(p, platform)
}

/// The display name of a workspace path: its file name without the
/// `.code-workspace` extension; none where the file name lacks the
/// extension or is nothing else.
pub open spec fn display_name_of(p: Seq<char>, platform: Platform) -> Option<Seq<char>> {
    match path_file_name(p, platform) {
        Some(name) => if has_suffix(name, workspace_ext()) && name.len() > workspace_ext().len() {
            Some(name.subrange(0, name.len() - workspace_ext().len()))
        } else {
            None
        },
        None => None,
    }
}

/// The Windows verbatim prefix `\\?\` that `std::fs::canonicalize` adds.
pub open spec fn verbatim_prefix() -> Seq<char> {
    "\\\\?\\"@
}

/// A workspace path in the form that the scanner produces: on Windows the
/// `\\?\` prefix is dropped and a drive letter is upper case; elsewhere the
/// path is unchanged.
pub open spec fn normalized_path(p: Seq<char>, platform: Platform) -> Seq<char> {
    if platform != Platform::Windows {
        p
    } else {
        let s = if has_prefix(p, verbatim_prefix()) {
            drop_prefix(p, verbatim_prefix().len())
        } else {
            p
        };
        if has_drive_prefix(s) && 'a' <= s[0] && s[0] <= 'z' {
            s.update(0, ((s[0] as u32) - 32) as char)
        } else {
            s
        }
    }
}

/// An ASCII letter.
fn is_letter(c: char) -> (r: bool)
    ensures
        r == is_ascii_letter(c),
{
    ('A' <= c && c <= 'Z') || ('a' <= c && c <= 'z')
}

/// The last component of path `p`, the way `Path::file_name` reads it.
pub fn file_name(p: &Vec<char>, platform: Platform) -> (r: Option<Vec<char>>)
    ensures
        match r {
            Some(v) => path_file_name(p@, platform) == Some(v@),
            None => path_file_name(p@, platform) is None,
        },
{
    last_name_exec(p, platform)
}

/// Given a path like `.../personal.code-workspace`, the display name
/// `"personal"`.
pub fn workspace_display_name(p: &String, platform: Platform) -> (r: Option<String>)
    ensures
        opt_view(r) == display_name_of(p@, platform),
{
    let cs = string_chars(p);
    let ext = chars_of(".code-workspace");
    match file_name(&cs, platform) {
        Some(name) => {
            if ends_with(&name, &ext) && name.len() > ext.len() {
                Some(string_of(&subvec(&name, 0, name.len() - ext.len())))
            } else {
                None
            }
        },
        None => None,
    }
}

/// Brings a workspace path into the form that the scanner produces: on
/// Windows the `\\?\` prefix that `std::fs::canonicalize` adds is dropped
/// and the drive letter is made upper case; elsewhere nothing changes.
pub fn normalize_workspace_path(p: &String, platform: Platform) -> (r: String)
    ensures
        r@ == normalized_path(p@, platform),
{
    if !platform.is_windows() {
        return p.clone();
    }
    let cs = string_chars(p);
    let prefix = chars_of("\\\\?\\");
    let s = if starts_with(&cs, &prefix) {
        subvec(&cs, prefix.len(), cs.len())
    } else {
        cs
    };
    if s.len() >= 2 && is_letter(s[0]) && s[1] == ':' && 'a' <= s[0] && s[0] <= 'z' {
        let mut out = s.clone();
        let up = ((s[0] as u32) - 32) as u8 as char;
        out.set(0, up);
        string_of(&out)
    } else {
        string_of(&s)
    }
}


// ---------------------------------------------------------------------------
// The process table and process trees
// ---------------------------------------------------------------------------

/// What the poller reads of one process: its pid, its parent's pid, its
/// resident memory in bytes and its command line.
#[derive(Debug, Clone)]
pub struct ProcessInfo {
    pub pid: u32,
    pub parent: Option<u32>,
    pub memory: u64,
    pub args: Vec<String>,
}

/// No pid occurs twice in the table, as in the process table of the system.
pub open spec fn pids_distinct(ps: Seq<ProcessInfo>) -> bool {
    forall|i: int, j: int|
        0 <= i < ps.len() && 0 <= j < ps.len() && i != j ==> #[trigger] ps[i].pid != #[trigger] ps[j].pid
}

/// The pids of the processes in `ps` whose parent is `a`, in table order.
pub open spec fn children_of(ps: Seq<ProcessInfo>, a: u32) -> Seq<u32>
    decreases ps.len(),
{
    if ps.len() == 0 {
        seq![]
    } else {
        let rest = children_of(ps.drop_last(), a);
        if ps.last().parent == Some(a) {
            rest.push(ps.last().pid)
        } else {
            rest
        }
    }
}

/// Some process in `ps` has parent `a`.
pub open spec fn has_child(ps: Seq<ProcessInfo>, a: u32) -> bool {
    exists|i: int| 0 <= i < ps.len() && #[trigger] ps[i].parent == Some(a)
}

/// Process `b` of `ps` has parent `a`.
pub open spec fn is_child(ps: Seq<ProcessInfo>, a: u32, b: u32) -> bool {
    exists|i: int| 0 <= i < ps.len() && #[trigger] ps[i].pid == b && ps[i].parent == Some(a)
}

/// `m` maps each pid that is some process's parent to its children, in
/// table order, and holds no other key.
pub open spec fn is_children_map(m: Map<u32, Vec<u32>>, ps: Seq<ProcessInfo>) -> bool {
    &&& forall|a: u32| #[trigger] m.contains_key(a) <==> has_child(ps, a)
    &&& forall|a: u32| #[trigger] m.contains_key(a) ==> m[a]@ == children_of(ps, a)
}

/// A set of pids that holds the children of each of its members.
pub open spec fn closed_under_children(s: Set<u32>, ps: Seq<ProcessInfo>) -> bool {
    forall|a: u32, b: u32| #[trigger] s.contains(a) && #[trigger] is_child(ps, a, b) ==> s.contains(b)
}

/// `x` lies in the process tree rooted at `root`: every set that holds
/// `root` and the children of its members holds `x`.
pub open spec fn in_tree(ps: Seq<ProcessInfo>, root: u32, x: u32) -> bool {
    forall|s: Set<u32>| #[trigger] s.contains(root) && closed_under_children(s, ps) ==> s.contains(x)
}

/// The sum of `w` over the processes in `ps` whose pid satisfies `pred`.
pub open spec fn weighted_sum(
    ps: Seq<ProcessInfo>,
    pred: spec_fn(u32) -> bool,
    w: spec_fn(ProcessInfo) -> int,
) -> int
    decreases ps.len(),
{
    if ps.len() == 0 {
        0
    } else {
        weighted_sum(ps.drop_last(), pred, w) + if pred(ps.last().pid) {
            w(ps.last())
        } else {
            0
        }
    }
}

/// The memory of a process.
pub open spec fn memory_of(p: ProcessInfo) -> int {
    p.memory as int
}

/// The memory of the processes in `ps` whose pid satisfies `pred`.
pub open spec fn memory_sum(ps: Seq<ProcessInfo>, pred: spec_fn(u32) -> bool) -> int {
    weighted_sum(ps, pred, |p: ProcessInfo| memory_of(p))
}

/// The number of processes in `ps` whose pid satisfies `pred`.
pub open spec fn count_matching(ps: Seq<ProcessInfo>, pred: spec_fn(u32) -> bool) -> int {
    weighted_sum(ps, pred, |p: ProcessInfo| 1int)
}

/// The memory of the process tree rooted at `root`, root included.
pub open spec fn tree_memory(ps: Seq<ProcessInfo>, root: u32) -> int {
    memory_sum(ps, |x: u32| in_tree(ps, root, x))
}

proof fn lemma_children_of_members(ps: Seq<ProcessInfo>, a: u32)
    ensures
        forall|b: u32| #[trigger] children_of(ps, a).contains(b) <==> is_child(ps, a, b),
    decreases ps.len(),
{
    if ps.len() > 0 {
        let q = ps.drop_last();
        let n = ps.len() - 1;
        lemma_children_of_members(q, a);
        let rest = children_of(q, a);
        let cs = children_of(ps, a);
        assert forall|b: u32| #[trigger] cs.contains(b) implies is_child(ps, a, b) by {
            let k = choose|k: int| 0 <= k < cs.len() && cs[k] == b;
            if k < rest.len() {
                assert(rest[k] == b);
                assert(rest.contains(b));
                assert(is_child(q, a, b));
                let i = choose|i: int| 0 <= i < q.len() && #[trigger] q[i].pid == b && q[i].parent == Some(a);
                assert(ps[i] == q[i]);
            } else {
                assert(ps[n].pid == b && ps[n].parent == Some(a));
            }
        }
        assert forall|b: u32| is_child(ps, a, b) implies #[trigger] cs.contains(b) by {
            let i = choose|i: int| 0 <= i < ps.len() && #[trigger] ps[i].pid == b && ps[i].parent == Some(a);
            if i < n {
                assert(q[i] == ps[i]);
                assert(is_child(q, a, b));
                assert(rest.contains(b));
                let k = choose|k: int| 0 <= k < rest.len() && rest[k] == b;
                assert(cs[k] == b);
            } else {
                assert(cs[cs.len() - 1] == b);
            }
        }
    }
}

proof fn lemma_weighted_none(ps: Seq<ProcessInfo>, pred: spec_fn(u32) -> bool, w: spec_fn(ProcessInfo) -> int)
    requires
        forall|y: u32| !#[trigger] pred(y),
    ensures
        weighted_sum(ps, pred, w) == 0,
    decreases ps.len(),
{
    if ps.len() > 0 {
        lemma_weighted_none(ps.drop_last(), pred, w);
        assert(!pred(ps.last().pid));
    }
}

proof fn lemma_weighted_split(
    ps: Seq<ProcessInfo>,
    pred: spec_fn(u32) -> bool,
    x: u32,
    w: spec_fn(ProcessInfo) -> int,
)
    requires
        !pred(x),
    ensures
        weighted_sum(ps, |y: u32| pred(y) || y == x, w) == weighted_sum(ps, pred, w)
            + weighted_sum(ps, |y: u32| y == x, w),
    decreases ps.len(),
{
    if ps.len() > 0 {
        lemma_weighted_split(ps.drop_last(), pred, x, w);
    }
}

proof fn lemma_weighted_single(ps: Seq<ProcessInfo>, x: u32, k: int, w: spec_fn(ProcessInfo) -> int)
    requires
        pids_distinct(ps),
        0 <= k < ps.len(),
        ps[k].pid == x,
    ensures
        weighted_sum(ps, |y: u32| y == x, w) == w(ps[k]),
    decreases ps.len(),
{
    let q = ps.drop_last();
    if k < ps.len() - 1 {
        assert(q[k] == ps[k]);
        lemma_weighted_single(q, x, k, w);
        assert(ps.last().pid != x);
    } else {
        lemma_weighted_absent(q, x, w);
    }
}

proof fn lemma_weighted_absent(ps: Seq<ProcessInfo>, x: u32, w: spec_fn(ProcessInfo) -> int)
    requires
        forall|i: int| 0 <= i < ps.len() ==> #[trigger] ps[i].pid != x,
    ensures
        weighted_sum(ps, |y: u32| y == x, w) == 0,
    decreases ps.len(),
{
    if ps.len() > 0 {
        let q = ps.drop_last();
        assert forall|i: int| 0 <= i < q.len() implies #[trigger] q[i].pid != x by {
            assert(q[i] == ps[i]);
        }
        lemma_weighted_absent(q, x, w);
        assert(ps[ps.len() - 1].pid != x);
    }
}

proof fn lemma_weighted_bounds(
    ps: Seq<ProcessInfo>,
    pred: spec_fn(u32) -> bool,
    w: spec_fn(ProcessInfo) -> int,
    bound: int,
)
    requires
        forall|p: ProcessInfo| 0 <= #[trigger] w(p) <= bound,
    ensures
        0 <= weighted_sum(ps, pred, w) <= ps.len() * bound,
    decreases ps.len(),
{
    if ps.len() > 0 {
        lemma_weighted_bounds(ps.drop_last(), pred, w, bound);
        assert(0 <= w(ps.last()) <= bound);
        assert((ps.len() - 1) * bound + bound == ps.len() * bound) by (nonlinear_arith);
    }
}

proof fn lemma_weighted_ext(
    ps: Seq<ProcessInfo>,
    p1: spec_fn(u32) -> bool,
    p2: spec_fn(u32) -> bool,
    w: spec_fn(ProcessInfo) -> int,
)
    requires
        forall|y: u32| #[trigger] p1(y) == p2(y),
    ensures
        weighted_sum(ps, p1, w) == weighted_sum(ps, p2, w),
    decreases ps.len(),
{
    if ps.len() > 0 {
        lemma_weighted_ext(ps.drop_last(), p1, p2, w);
        assert(p1(ps.last().pid) == p2(ps.last().pid));
    }
}

proof fn lemma_no_child_no_children(ps: Seq<ProcessInfo>, a: u32)
    requires
        !has_child(ps, a),
    ensures
        children_of(ps, a) == Seq::<u32>::empty(),
    decreases ps.len(),
{
    if ps.len() > 0 {
        let q = ps.drop_last();
        assert(!has_child(q, a)) by {
            if has_child(q, a) {
                let j = choose|j: int| 0 <= j < q.len() && #[trigger] q[j].parent == Some(a);
                assert(ps[j] == q[j]);
            }
        }
        lemma_no_child_no_children(q, a);
        assert(ps[ps.len() - 1].parent != Some(a));
    }
}

proof fn lemma_has_child_step(ps: Seq<ProcessInfo>, a: u32)
    requires
        ps.len() > 0,
    ensures
        has_child(ps, a) == (has_child(ps.drop_last(), a) || ps.last().parent == Some(a)),
{
    let q = ps.drop_last();
    if has_child(ps, a) {
        let j = choose|j: int| 0 <= j < ps.len() && #[trigger] ps[j].parent == Some(a);
        if j < ps.len() - 1 {
            assert(q[j] == ps[j]);
        }
    }
    if has_child(q, a) {
        let j = choose|j: int| 0 <= j < q.len() && #[trigger] q[j].parent == Some(a);
        assert(ps[j] == q[j]);
    }
    if ps.last().parent == Some(a) {
        assert(ps[ps.len() - 1].parent == Some(a));
    }
}

/// Pure helper: the map from each parent pid to its child pids, in table
/// order.
pub fn build_children_map(processes: &Vec<ProcessInfo>) -> (r: HashMap<u32, Vec<u32>>)
    ensures
        is_children_map(r@, processes@),
{
    broadcast use vstd::std_specs::hash::group_hash_axioms;

    let mut map: HashMap<u32, Vec<u32>> = HashMap::new();
    let mut i: usize = 0;
    while i < processes.len()
        invariant
            i <= processes@.len(),
            is_children_map(map@, processes@.subrange(0, i as int)),
        decreases processes@.len() - i,
    {
        let ghost before = processes@.subrange(0, i as int);
        let ghost after = processes@.subrange(0, i + 1);
        let ghost old_map = map@;
        assert(after.drop_last() =~= before);
        assert(after.last() == processes@[i as int]);
        let pid = processes[i].pid;
        match processes[i].parent {
            Some(q) => {
                let mut v: Vec<u32> = match map.remove(&q) {
                    Some(v) => v,
                    None => Vec::new(),
                };
                proof {
                    if !old_map.contains_key(q) {
                        lemma_no_child_no_children(before, q);
                    }
                }
                assert(v@ == children_of(before, q));
                v.push(pid);
                map.insert(q, v);
                assert(map@ == old_map.insert(q, v));
            },
            None => {},
        }
        assert forall|a: u32| #[trigger] map@.contains_key(a) <==> has_child(after, a) by {
            lemma_has_child_step(after, a);
        }
        assert forall|a: u32| #[trigger] map@.contains_key(a) implies map@[a]@ == children_of(after, a) by {
            lemma_has_child_step(after, a);
        }
        i += 1;
    }
    assert(processes@.subrange(0, processes@.len() as int) =~= processes@);
    map
}

/// The pids in a process tree and their summed memory.
#[derive(Debug, Clone)]
pub struct TreeTotals {
    pub members: Vec<u32>,
    pub ram: u64,
}

/// The index of the process with pid `x`, if there is one.
fn find_process(processes: &Vec<ProcessInfo>, x: u32) -> (r: Option<usize>)
    ensures
        match r {
            Some(k) => k < processes@.len() && processes@[k as int].pid == x,
            None => forall|i: int| 0 <= i < processes@.len() ==> #[trigger] processes@[i].pid != x,
        },
{
    let mut i: usize = 0;
    while i < processes.len()
        invariant
            i <= processes@.len(),
            forall|j: int| 0 <= j < i ==> #[trigger] processes@[j].pid != x,
        decreases processes@.len() - i,
    {
        if processes[i].pid == x {
            return Some(i);
        }
        i += 1;
    }
    None
}

/// Map `m` lists `b` among the children of `a`.
pub open spec fn map_child(m: Map<u32, Vec<u32>>, a: u32, b: u32) -> bool {
    m.contains_key(a) && m[a]@.contains(b)
}

/// A set of pids that holds every child that map `m` lists for its members.
pub open spec fn closed_under_map(s: Set<u32>, m: Map<u32, Vec<u32>>) -> bool {
    forall|a: u32, b: u32| #[trigger] s.contains(a) && #[trigger] map_child(m, a, b) ==> s.contains(b)
}

/// `x` is reached from `root` through the children that map `m` lists:
/// every set that holds `root` and the listed children of its members
/// holds `x`.
pub open spec fn map_reach(m: Map<u32, Vec<u32>>, root: u32, x: u32) -> bool {
    forall|s: Set<u32>| #[trigger] s.contains(root) && closed_under_map(s, m) ==> s.contains(x)
}

/// The memory of the processes of `ps` reached from `root` through `m`.
pub open spec fn reach_memory(ps: Seq<ProcessInfo>, m: Map<u32, Vec<u32>>, root: u32) -> int {
    memory_sum(ps, |x: u32| map_reach(m, root, x))
}

/// For the map of a table's children, reaching through the map is lying in
/// the table's process tree.
pub proof fn lemma_reach_is_tree(m: Map<u32, Vec<u32>>, ps: Seq<ProcessInfo>, root: u32)
    requires
        is_children_map(m, ps),
    ensures
        forall|x: u32| #[trigger] map_reach(m, root, x) == in_tree(ps, root, x),
        reach_memory(ps, m, root) == tree_memory(ps, root),
{
    assert forall|a: u32, b: u32| #[trigger] map_child(m, a, b) == is_child(ps, a, b) by {
        lemma_children_of_members(ps, a);
        if m.contains_key(a) {
            assert(m[a]@ == children_of(ps, a));
            assert(m[a]@.contains(b) == children_of(ps, a).contains(b));
        } else if is_child(ps, a, b) {
            let i = choose|i: int| 0 <= i < ps.len() && #[trigger] ps[i].pid == b && ps[i].parent == Some(a);
            assert(ps[i].parent == Some(a));
            assert(has_child(ps, a));
        }
    }
    assert forall|s: Set<u32>| #[trigger] closed_under_map(s, m) == closed_under_children(s, ps) by {
        if closed_under_map(s, m) {
            assert forall|a: u32, b: u32| #[trigger] s.contains(a) && #[trigger] is_child(ps, a, b) implies s.contains(b) by {
                assert(map_child(m, a, b));
            }
        }
        if closed_under_children(s, ps) {
            assert forall|a: u32, b: u32| #[trigger] s.contains(a) && #[trigger] map_child(m, a, b) implies s.contains(b) by {
                assert(is_child(ps, a, b));
            }
        }
    }
    assert forall|x: u32| #[trigger] map_reach(m, root, x) == in_tree(ps, root, x) by {
        if map_reach(m, root, x) {
            assert forall|s: Set<u32>| #[trigger] s.contains(root) && closed_under_children(s, ps) implies s.contains(x) by {
                assert(closed_under_map(s, m));
            }
        }
        if in_tree(ps, root, x) {
            assert forall|s: Set<u32>| #[trigger] s.contains(root) && closed_under_map(s, m) implies s.contains(x) by {
                assert(closed_under_children(s, ps));
            }
        }
    }
    lemma_weighted_ext(ps, |x: u32| map_reach(m, root, x), |x: u32| in_tree(ps, root, x), |p: ProcessInfo| memory_of(p));
}

/// The pids reached from `root` through the children that map `children`
/// lists (root included), and the sum of the memory of those of them that
/// are in the process table; `None` where that sum does not fit in a
/// `u64`. Each pid counts once, whatever the map holds.
pub fn sum_tree(root: u32, children: &HashMap<u32, Vec<u32>>, processes: &Vec<ProcessInfo>) -> (r:
    Option<TreeTotals>)
    requires
        pids_distinct(processes@),
    ensures
        match r {
            Some(t) => {
                &&& t.ram == reach_memory(processes@, children@, root)
                &&& t.members@.no_duplicates()
                &&& forall|x: u32| #[trigger] t.members@.contains(x) <==> map_reach(children@, root, x)
            },
            None => reach_memory(processes@, children@, root) > u64::MAX,
        },
{
    broadcast use vstd::std_specs::hash::group_hash_axioms;
    broadcast use vstd::set::group_set_axioms;

    let ghost ps = processes@;
    let ghost m = children@;
    let ghost mem = |p: ProcessInfo| memory_of(p);
    let mut visited: HashSet<u32> = HashSet::new();
    let mut members: Vec<u32> = Vec::new();
    let mut stack: Vec<u32> = Vec::new();
    stack.push(root);
    let mut ram: u128 = 0;
    let n = processes.len();
    proof {
        lemma_weighted_none(ps, |y: u32| visited@.contains(y), mem);
        assert(ps.len() * u64::MAX <= u128::MAX) by (nonlinear_arith)
            requires
                ps.len() <= usize::MAX,
        ;
        vstd::std_specs::hash::axiom_hashmap_view_finite_dom(*children);
    }
    while stack.len() > 0
        invariant
            ps == processes@,
            m == children@,
            m.dom().finite(),
            mem == (|p: ProcessInfo| memory_of(p)),
            ps.len() * u64::MAX <= u128::MAX,
            pids_distinct(ps),
            forall|x: u32| #[trigger] visited@.contains(x) <==> members@.contains(x),
            members@.no_duplicates(),
            forall|x: u32| #[trigger] visited@.contains(x) ==> map_reach(m, root, x),
            forall|j: int| 0 <= j < stack@.len() ==> map_reach(m, root, #[trigger] stack@[j]),
            visited@.contains(root) || stack@ == seq![root],
            forall|a: u32, b: u32|
                #[trigger] visited@.contains(a) && #[trigger] map_child(m, a, b) ==> visited@.contains(b)
                    || stack@.contains(b),
            ram == weighted_sum(ps, |y: u32| visited@.contains(y), mem),
        decreases m.dom().difference(visited@).len(), stack@.len(),
    {
        let ghost pre = stack@;
        let x = stack.pop().unwrap();
        assert(pre == stack@.push(x));
        assert(pre[pre.len() - 1] == x);
        if visited.contains(&x) {
            assert forall|a: u32, b: u32|
                #[trigger] visited@.contains(a) && #[trigger] map_child(m, a, b) implies visited@.contains(b)
                || stack@.contains(b) by {
                if !visited@.contains(b) {
                    assert(pre.contains(b));
                    let j = choose|j: int| 0 <= j < pre.len() && pre[j] == b;
                    if j < stack@.len() {
                        assert(stack@[j] == b);
                    }
                }
            }
            assert forall|j: int| 0 <= j < stack@.len() implies map_reach(m, root, #[trigger] stack@[j]) by {
                assert(stack@[j] == pre[j]);
            }
            continue ;
        }
        assert(map_reach(m, root, x));
        let ghost old_visited = visited@;
        let ghost old_members = members@;
        let ghost old_pred = |y: u32| old_visited.contains(y);
        visited.insert(x);
        members.push(x);
        let ghost new_pred = |y: u32| visited@.contains(y);
        proof {
            assert(visited@ == old_visited.insert(x));
            assert forall|y: u32| #[trigger] visited@.contains(y) <==> members@.contains(y) by {
                if members@.contains(y) && y != x {
                    let k = choose|k: int| 0 <= k < members@.len() && members@[k] == y;
                    assert(old_members[k] == y);
                }
                if y == x {
                    assert(members@[members@.len() - 1] == x);
                }
                if old_members.contains(y) {
                    let k = choose|k: int| 0 <= k < old_members.len() && old_members[k] == y;
                    assert(members@[k] == y);
                }
            }
            assert(!old_members.contains(x));
            assert forall|i: int, j: int| 0 <= i < j < members@.len() implies members@[i] != members@[j] by {
                if j == members@.len() - 1 {
                    assert(old_members[i] == members@[i]);
                }
            }
            lemma_weighted_split(ps, old_pred, x, mem);
            lemma_weighted_ext(ps, new_pred, |y: u32| old_pred(y) || y == x, mem);
            lemma_weighted_bounds(ps, new_pred, mem, u64::MAX as int);
            if m.dom().contains(x) {
                assert(m.dom().difference(visited@) =~= m.dom().difference(old_visited).remove(x));
                assert(m.dom().difference(old_visited).contains(x));
            } else {
                assert(m.dom().difference(visited@) =~= m.dom().difference(old_visited));
            }
        }
        match find_process(processes, x) {
            Some(k) => {
                proof {
                    lemma_weighted_single(ps, x, k as int, mem);
                }
                ram = ram + processes[k].memory as u128;
            },
            None => {
                proof {
                    lemma_weighted_absent(ps, x, mem);
                }
            },
        }
        let ghost mid_stack = stack@;
        let ghost kids_of_x: Seq<u32> = if m.contains_key(x) {
            m[x]@
        } else {
            seq![]
        };
        match children.get(&x) {
            Some(kids) => {
                let mut j: usize = 0;
                while j < kids.len()
                    invariant
                        j <= kids@.len(),
                        stack@ == mid_stack + kids@.subrange(0, j as int),
                    decreases kids@.len() - j,
                {
                    stack.push(kids[j]);
                    j += 1;
                    assert(stack@ =~= mid_stack + kids@.subrange(0, j as int));
                }
                assert(kids@.subrange(0, kids@.len() as int) =~= kids@);
                assert(kids@ == kids_of_x);
            },
            None => {
                assert(stack@ =~= mid_stack + kids_of_x);
            },
        }
        proof {
            assert(stack@ == mid_stack + kids_of_x);
            assert forall|j: int| 0 <= j < stack@.len() implies map_reach(m, root, #[trigger] stack@[j]) by {
                if j >= mid_stack.len() {
                    let b = stack@[j];
                    assert(kids_of_x[j - mid_stack.len()] == b);
                    assert(map_child(m, x, b));
                    assert forall|s: Set<u32>| #[trigger] s.contains(root) && closed_under_map(s, m) implies s.contains(b) by {
                        assert(s.contains(x));
                    }
                } else {
                    assert(stack@[j] == pre[j]);
                }
            }
            assert forall|a: u32, b: u32|
                #[trigger] visited@.contains(a) && #[trigger] map_child(m, a, b) implies visited@.contains(b)
                || stack@.contains(b) by {
                if a == x {
                    assert(kids_of_x.contains(b));
                    let k = choose|k: int| 0 <= k < kids_of_x.len() && kids_of_x[k] == b;
                    assert(stack@[mid_stack.len() + k] == b);
                } else if !visited@.contains(b) {
                    assert(old_visited.contains(a));
                    assert(pre.contains(b));
                    let j = choose|j: int| 0 <= j < pre.len() && pre[j] == b;
                    assert(j < mid_stack.len());
                    assert(stack@[j] == b);
                }
            }
        }
    }
    proof {
        assert(stack@ =~= Seq::<u32>::empty());
        assert(closed_under_map(visited@, m));
        assert forall|x: u32| #[trigger] visited@.contains(x) <==> map_reach(m, root, x) by {
            if map_reach(m, root, x) {
                assert(visited@.contains(root) && closed_under_map(visited@, m));
            }
        }
        lemma_weighted_ext(ps, |y: u32| visited@.contains(y), |y: u32| map_reach(m, root, y), mem);
    }
    assert forall|x: u32| #[trigger] members@.contains(x) <==> map_reach(m, root, x) by {
        assert(visited@.contains(x) <==> members@.contains(x));
    }
    if ram > u64::MAX as u128 {
        return None;
    }
    Some(TreeTotals { members, ram: ram as u64 })
}


// ---------------------------------------------------------------------------
// Main processes and the per-workspace summary
// ---------------------------------------------------------------------------

/// The workspace a main process was launched with, in normal form.
pub open spec fn main_workspace(args: Seq<String>, platform: Platform) -> Option<Seq<char>> {
    match workspace_path_from_args(arg_views(args)) {
        Some(p) => Some(normalized_path(p, platform)),
        None => None,
    }
}

/// The processes of `ps` that are main Electron processes, in table order.
pub open spec fn main_candidates(ps: Seq<ProcessInfo>) -> Seq<ProcessInfo>
    decreases ps.len(),
{
    if ps.len() == 0 {
        seq![]
    } else {
        let rest = main_candidates(ps.drop_last());
        if is_main_electron_args(arg_views(ps.last().args@)) {
            rest.push(ps.last())
        } else {
            rest
        }
    }
}

/// A VSCode main process: its pid, the pids of its process tree, the
/// memory of that tree and the workspace in its argv.
#[derive(Debug, Clone)]
pub struct MainProcess {
    pub pid: u32,
    pub tree: Vec<u32>,
    pub tree_ram: u64,
    pub argv_workspace: Option<String>,
}

/// `m` describes main process `p` of table `ps`.
pub open spec fn describes_main(m: MainProcess, p: ProcessInfo, ps: Seq<ProcessInfo>, platform: Platform) -> bool {
    &&& m.pid == p.pid
    &&& m.tree_ram == tree_memory(ps, p.pid)
    &&& m.tree@.no_duplicates()
    &&& forall|x: u32| #[trigger] m.tree@.contains(x) <==> in_tree(ps, p.pid, x)
    &&& opt_view(m.argv_workspace) == main_workspace(p.args@, platform)
}

/// No two main processes share a pid.
pub open spec fn main_pids_distinct(ms: Seq<MainProcess>) -> bool {
    forall|i: int, j: int|
        0 <= i < ms.len() && 0 <= j < ms.len() && i != j ==> #[trigger] ms[i].pid != #[trigger] ms[j].pid
}

proof fn lemma_candidates_in_table(ps: Seq<ProcessInfo>)
    ensures
        forall|j: int|
            0 <= j < main_candidates(ps).len() ==> exists|i: int|
                0 <= i < ps.len() && #[trigger] main_candidates(ps)[j] == ps[i],
    decreases ps.len(),
{
    if ps.len() > 0 {
        let q = ps.drop_last();
        lemma_candidates_in_table(q);
        let c = main_candidates(ps);
        let cq = main_candidates(q);
        assert forall|j: int| 0 <= j < c.len() implies exists|i: int|
            0 <= i < ps.len() && #[trigger] c[j] == ps[i] by {
            if j < cq.len() {
                assert(c[j] == cq[j]);
                let i = choose|i: int| 0 <= i < q.len() && cq[j] == q[i];
                assert(ps[i] == q[i]);
            } else {
                assert(c[j] == ps[ps.len() - 1]);
            }
        }
    }
}

proof fn lemma_candidates_distinct(ps: Seq<ProcessInfo>)
    requires
        pids_distinct(ps),
    ensures
        pids_distinct(main_candidates(ps)),
    decreases ps.len(),
{
    if ps.len() > 0 {
        let q = ps.drop_last();
        assert(pids_distinct(q)) by {
            assert forall|i: int, j: int| 0 <= i < q.len() && 0 <= j < q.len() && i != j implies #[trigger] q[i].pid != #[trigger] q[j].pid by {
                assert(q[i] == ps[i] && q[j] == ps[j]);
            }
        }
        lemma_candidates_distinct(q);
        lemma_candidates_in_table(q);
        let c = main_candidates(ps);
        let cq = main_candidates(q);
        assert forall|i: int, j: int| 0 <= i < c.len() && 0 <= j < c.len() && i != j implies #[trigger] c[i].pid != #[trigger] c[j].pid by {
            if i < cq.len() && j < cq.len() {
                assert(c[i] == cq[i] && c[j] == cq[j]);
            } else if i < cq.len() {
                assert(c[i] == cq[i]);
                let k = choose|k: int| 0 <= k < q.len() && #[trigger] cq[i] == q[k];
                assert(q[k] == ps[k]);
                assert(c[j] == ps[ps.len() - 1]);
            } else if j < cq.len() {
                assert(c[j] == cq[j]);
                let k = choose|k: int| 0 <= k < q.len() && #[trigger] cq[j] == q[k];
                assert(q[k] == ps[k]);
                assert(c[i] == ps[ps.len() - 1]);
            }
        }
    }
}

/// The VSCode main processes of the process table, in table order, each
/// with the totals of its process tree and its argv workspace in normal
/// form; `None` where the memory of some such tree does not fit in a `u64`.
pub fn find_main_processes(processes: &Vec<ProcessInfo>, platform: Platform) -> (r: Option<Vec<MainProcess>>)
    requires
        pids_distinct(processes@),
    ensures
        match r {
            Some(ms) => {
                &&& ms@.len() == main_candidates(processes@).len()
                &&& forall|j: int| 0 <= j < ms@.len() ==> describes_main(#[trigger] ms@[j], main_candidates(processes@)[j], processes@, platform)
                &&& main_pids_distinct(ms@)
            },
            None => exists|j: int| 0 <= j < main_candidates(processes@).len() && tree_memory(processes@, #[trigger] main_candidates(processes@)[j].pid) > u64::MAX,
        },
{
    let ghost ps = processes@;
    let children = build_children_map(processes);
    let mut mains: Vec<MainProcess> = Vec::new();
    let mut i: usize = 0;
    while i < processes.len()
        invariant
            ps == processes@,
            i <= ps.len(),
            pids_distinct(ps),
            is_children_map(children@, ps),
            mains@.len() == main_candidates(ps.subrange(0, i as int)).len(),
            forall|j: int| 0 <= j < mains@.len() ==> describes_main(#[trigger] mains@[j], main_candidates(ps.subrange(0, i as int))[j], ps, platform),
        decreases ps.len() - i,
    {
        let ghost before = ps.subrange(0, i as int);
        let ghost after = ps.subrange(0, i + 1);
        assert(after.drop_last() =~= before);
        assert(after.last() == ps[i as int]);
        if is_main_electron(processes[i].args.as_slice()) {
            let ws = match extract_workspace_path_from_args(processes[i].args.as_slice()) {
                Some(p) => Some(normalize_workspace_path(&p, platform)),
                None => None,
            };
            proof {
                lemma_reach_is_tree(children@, ps, ps[i as int].pid);
            }
            match sum_tree(processes[i].pid, &children, processes) {
                Some(t) => {
                    let m = MainProcess { pid: processes[i].pid, tree: t.members, tree_ram: t.ram, argv_workspace: ws };
                    mains.push(m);
                    assert forall|j: int| 0 <= j < mains@.len() implies describes_main(#[trigger] mains@[j], main_candidates(after)[j], ps, platform) by {
                        if j < mains@.len() - 1 {
                            assert(main_candidates(after)[j] == main_candidates(before)[j]);
                        }
                    }
                },
                None => {
                    proof {
                        let c = main_candidates(ps);
                        lemma_candidates_prefix(ps, i + 1);
                        let j = main_candidates(before).len() as int;
                        assert(main_candidates(after)[j] == ps[i as int]);
                        assert(c[j] == main_candidates(after)[j]);
                        assert(c[j] == ps[i as int]);
                    }
                    return None;
                },
            }
        } else {
            assert(main_candidates(after) == main_candidates(before));
        }
        i += 1;
    }
    assert(ps.subrange(0, ps.len() as int) =~= ps);
    proof {
        lemma_candidates_distinct(ps);
        let c = main_candidates(ps);
        assert forall|a: int, b: int| 0 <= a < mains@.len() && 0 <= b < mains@.len() && a != b implies #[trigger] mains@[a].pid != #[trigger] mains@[b].pid by {
            assert(describes_main(mains@[a], c[a], ps, platform));
            assert(describes_main(mains@[b], c[b], ps, platform));
        }
    }
    Some(mains)
}

proof fn lemma_candidates_prefix(ps: Seq<ProcessInfo>, i: int)
    requires
        0 <= i <= ps.len(),
    ensures
        main_candidates(ps.subrange(0, i)).len() <= main_candidates(ps).len(),
        forall|j: int| 0 <= j < main_candidates(ps.subrange(0, i)).len() ==> main_candidates(ps)[j] == #[trigger] main_candidates(ps.subrange(0, i))[j],
    decreases ps.len() - i,
{
    if i < ps.len() {
        lemma_candidates_prefix(ps, i + 1);
        let a = ps.subrange(0, i);
        let b = ps.subrange(0, i + 1);
        assert(b.drop_last() =~= a);
        assert forall|j: int| 0 <= j < main_candidates(a).len() implies main_candidates(ps)[j] == #[trigger] main_candidates(a)[j] by {
            assert(main_candidates(b)[j] == main_candidates(a)[j]);
            assert(main_candidates(ps)[j] == main_candidates(b)[j]);
        }
    } else {
        assert(ps.subrange(0, i) =~= ps);
    }
}


/// One share of a main process's CPU time: its tree's CPU divided by
/// `divisor`, the number of windows of that process.
#[derive(Debug, Clone, Copy, PartialEq, Eq)]
pub struct CpuShare {
    pub main_pid: u32,
    pub divisor: u64,
}

/// One open workspace: its path (empty where only a display-name hint is
/// known), the hint, the memory of the processes behind it, its number of
/// windows, the handle of its first window and the CPU shares that add up
/// to its CPU time.
#[derive(Debug, Clone)]
pub struct WorkspaceUsage {
    pub path: String,
    pub display_name_hint: Option<String>,
    pub ram_bytes: u64,
    pub window_count: u32,
    pub hwnd: Option<i64>,
    pub cpu_shares: Vec<CpuShare>,
}

/// What one window, or one main process without windows, adds to the
/// workspace with key (`path`, `hint`).
pub struct Contribution {
    pub path: Seq<char>,
    pub hint: Option<Seq<char>>,
    pub ram: int,
    pub hwnd: Option<i64>,
    pub share: CpuShare,
}

/// The summary of one workspace, with unbounded sums.
pub struct Tally {
    pub path: Seq<char>,
    pub hint: Option<Seq<char>>,
    pub ram: int,
    pub count: int,
    pub hwnd: Option<i64>,
    pub shares: Seq<CpuShare>,
}

/// The index of the first main process with pid `pid` at or after `k`, or -1.
pub open spec fn main_index_from(ms: Seq<MainProcess>, pid: u32, k: int) -> int
    decreases ms.len() - k,
{
    if k < 0 || k >= ms.len() {
        -1
    } else if ms[k].pid == pid {
        k
    } else {
        main_index_from(ms, pid, k + 1)
    }
}

/// The number of windows in `ws` that belong to process `pid`.
pub open spec fn window_count(ws: Seq<WorkspaceWindow>, pid: u32) -> int
    decreases ws.len(),
{
    if ws.len() == 0 {
        0
    } else {
        window_count(ws.drop_last(), pid) + if ws.last().pid == pid {
            1int
        } else {
            0int
        }
    }
}

/// The workspace key of a window named `name` of main process `m`: the
/// argv path where its display name is the window's name, else an empty
/// path with the name as hint.
pub open spec fn window_key(m: MainProcess, name: Seq<char>, platform: Platform) -> (Seq<char>, Option<Seq<char>>) {
    match opt_view(m.argv_workspace) {
        Some(p) => if display_name_of(p, platform) == Some(name) {
            (p, None)
        } else {
            (Seq::empty(), Some(name))
        },
        None => (Seq::empty(), Some(name)),
    }
}

/// What the windows `ws` (a prefix of all windows `all`) contribute: each
/// window of a main process adds its share of that process's tree.
pub open spec fn window_contributions(
    ms: Seq<MainProcess>,
    ws: Seq<WorkspaceWindow>,
    all: Seq<WorkspaceWindow>,
    platform: Platform,
) -> Seq<Contribution>
    decreases ws.len(),
{
    if ws.len() == 0 {
        seq![]
    } else {
        let rest = window_contributions(ms, ws.drop_last(), all, platform);
        let w = ws.last();
        let k = main_index_from(ms, w.pid, 0);
        if k < 0 {
            rest
        } else {
            let m = ms[k];
            let n = window_count(all, w.pid);
            let key = window_key(m, w.workspace_name@, platform);
            rest.push(
                Contribution {
                    path: key.0,
                    hint: key.1,
                    ram: m.tree_ram as int / n,
                    hwnd: Some(w.hwnd),
                    share: CpuShare { main_pid: m.pid, divisor: n as u64 },
                },
            )
        }
    }
}

/// What the main processes `ms` without any window contribute: those with
/// an argv workspace add their whole tree to it.
pub open spec fn fallback_contributions(ms: Seq<MainProcess>, all: Seq<WorkspaceWindow>) -> Seq<Contribution>
    decreases ms.len(),
{
    if ms.len() == 0 {
        seq![]
    } else {
        let rest = fallback_contributions(ms.drop_last(), all);
        let m = ms.last();
        match opt_view(m.argv_workspace) {
            Some(p) => if window_count(all, m.pid) == 0 {
                rest.push(
                    Contribution {
                        path: p,
                        hint: None,
                        ram: m.tree_ram as int,
                        hwnd: None,
                        share: CpuShare { main_pid: m.pid, divisor: 1 },
                    },
                )
            } else {
                rest
            },
            None => rest,
        }
    }
}

/// All contributions: the windows' first, then the windowless mains'.
pub open spec fn contributions(ms: Seq<MainProcess>, ws: Seq<WorkspaceWindow>, platform: Platform) -> Seq<Contribution> {
    window_contributions(ms, ws, ws, platform) + fallback_contributions(ms, ws)
}

/// Whether a tally's key is (`path`, `hint`): its path is one path with
/// `path` (as `Path` equality sees it) and its hint is `hint`.
pub open spec fn has_key(t: Tally, path: Seq<char>, hint: Option<Seq<char>>, platform: Platform) -> bool {
    same_path_spec(t.path, path, platform) && t.hint == hint
}

/// The index of the first tally with key (`path`, `hint`) at or after `k`, or -1.
pub open spec fn tally_index_from(ts: Seq<Tally>, path: Seq<char>, hint: Option<Seq<char>>, k: int, platform: Platform) -> int
    decreases ts.len() - k,
{
    if k < 0 || k >= ts.len() {
        -1
    } else if has_key(ts[k], path, hint, platform) {
        k
    } else {
        tally_index_from(ts, path, hint, k + 1, platform)
    }
}

/// The tallies once contribution `c` is added: to the tally with its key,
/// or as a new tally at the end. The first window handle seen is kept.
pub open spec fn add_contribution(ts: Seq<Tally>, c: Contribution, platform: Platform) -> Seq<Tally> {
    let k = tally_index_from(ts, c.path, c.hint, 0, platform);
    if k >= 0 {
        let t = ts[k];
        ts.update(
            k,
            Tally {
                path: t.path,
                hint: t.hint,
                ram: t.ram + c.ram,
                count: t.count + 1,
                hwnd: if t.hwnd is Some {
                    t.hwnd
                } else {
                    c.hwnd
                },
                shares: t.shares.push(c.share),
            },
        )
    } else {
        ts.push(Tally { path: c.path, hint: c.hint, ram: c.ram, count: 1, hwnd: c.hwnd, shares: seq![c.share] })
    }
}

/// The tallies of a sequence of contributions, keys in order of first
/// appearance.
pub open spec fn tally_all(cs: Seq<Contribution>, platform: Platform) -> Seq<Tally>
    decreases cs.len(),
{
    if cs.len() == 0 {
        seq![]
    } else {
        add_contribution(tally_all(cs.drop_last(), platform), cs.last(), platform)
    }
}

/// The per-workspace tallies of the main processes `ms` and windows `ws`.
pub open spec fn workspace_tallies(ms: Seq<MainProcess>, ws: Seq<WorkspaceWindow>, platform: Platform) -> Seq<Tally> {
    tally_all(contributions(ms, ws, platform), platform)
}

/// Some tally's sums do not fit the fields of a `WorkspaceUsage`.
pub open spec fn tallies_overflow(ts: Seq<Tally>) -> bool {
    exists|i: int| 0 <= i < ts.len() && (#[trigger] ts[i].ram > u64::MAX || ts[i].count > u32::MAX)
}

/// The tally that a `WorkspaceUsage` reports.
pub open spec fn usage_tally(u: WorkspaceUsage) -> Tally {
    Tally {
        path: u.path@,
        hint: opt_view(u.display_name_hint),
        ram: u.ram_bytes as int,
        count: u.window_count as int,
        hwnd: u.hwnd,
        shares: u.cpu_shares@,
    }
}

/// A contribution being collected.
struct Contrib {
    path: String,
    hint: Option<String>,
    ram: u64,
    hwnd: Option<i64>,
    share: CpuShare,
}

/// A tally being collected.
struct Acc {
    path: String,
    hint: Option<String>,
    ram: u128,
    count: u64,
    hwnd: Option<i64>,
    shares: Vec<CpuShare>,
}

spec fn contrib_view(c: Contrib) -> Contribution {
    Contribution { path: c.path@, hint: opt_view(c.hint), ram: c.ram as int, hwnd: c.hwnd, share: c.share }
}

spec fn contrib_views(cs: Seq<Contrib>) -> Seq<Contribution> {
    cs.map_values(|c: Contrib| contrib_view(c))
}

spec fn acc_view(a: Acc) -> Tally {
    Tally { path: a.path@, hint: opt_view(a.hint), ram: a.ram as int, count: a.count as int, hwnd: a.hwnd, shares: a.shares@ }
}

spec fn acc_views(accs: Seq<Acc>) -> Seq<Tally> {
    accs.map_values(|a: Acc| acc_view(a))
}

/// A copy of an optional string.
fn clone_opt(o: &Option<String>) -> (r: Option<String>)
    ensures
        opt_view(r) == opt_view(*o),
{
    match o {
        Some(s) => Some(s.clone()),
        None => None,
    }
}

/// Whether two optional strings hold the same text.
fn opt_eq(a: &Option<String>, b: &Option<String>) -> (r: bool)
    ensures
        r == (opt_view(*a) == opt_view(*b)),
{
    match (a, b) {
        (Some(x), Some(y)) => x.eq(y),
        (None, None) => true,
        _ => false,
    }
}

/// The number of windows of process `pid`.
fn count_windows(windows: &Vec<WorkspaceWindow>, pid: u32) -> (r: u64)
    ensures
        r == window_count(windows@, pid),
{
    let mut n: u64 = 0;
    let mut i: usize = 0;
    while i < windows.len()
        invariant
            i <= windows@.len(),
            n == window_count(windows@.subrange(0, i as int), pid),
            n <= i,
        decreases windows@.len() - i,
    {
        assert(windows@.subrange(0, i + 1).drop_last() =~= windows@.subrange(0, i as int));
        if windows[i].pid == pid {
            n = n + 1;
        }
        i += 1;
    }
    assert(windows@.subrange(0, windows@.len() as int) =~= windows@);
    n
}

/// The index of the first main process with pid `pid`.
fn find_main(mains: &Vec<MainProcess>, pid: u32) -> (r: Option<usize>)
    ensures
        match r {
            Some(k) => k < mains@.len() && main_index_from(mains@, pid, 0) == k,
            None => main_index_from(mains@, pid, 0) == -1,
        },
{
    let mut k: usize = 0;
    while k < mains.len()
        invariant
            k <= mains@.len(),
            main_index_from(mains@, pid, 0) == main_index_from(mains@, pid, k as int),
        decreases mains@.len() - k,
    {
        if mains[k].pid == pid {
            return Some(k);
        }
        k += 1;
    }
    None
}

proof fn lemma_window_count_le(ws: Seq<WorkspaceWindow>, pid: u32)
    ensures
        0 <= window_count(ws, pid) <= ws.len(),
    decreases ws.len(),
{
    if ws.len() > 0 {
        lemma_window_count_le(ws.drop_last(), pid);
    }
}

proof fn lemma_window_count_pos(ws: Seq<WorkspaceWindow>, i: int)
    requires
        0 <= i < ws.len(),
    ensures
        window_count(ws, ws[i].pid) >= 1,
    decreases ws.len(),
{
    let q = ws.drop_last();
    if i < ws.len() - 1 {
        assert(q[i] == ws[i]);
        lemma_window_count_pos(q, i);
    } else {
        lemma_window_count_le(q, ws[i].pid);
    }
}

/// What the windows contribute, window by window.
fn window_contribution_list(mains: &Vec<MainProcess>, windows: &Vec<WorkspaceWindow>, platform: Platform) -> (r: Vec<Contrib>)
    ensures
        contrib_views(r@) == window_contributions(mains@, windows@, windows@, platform),
{
    let mut out: Vec<Contrib> = Vec::new();
    let mut i: usize = 0;
    while i < windows.len()
        invariant
            i <= windows@.len(),
            contrib_views(out@) == window_contributions(mains@, windows@.subrange(0, i as int), windows@, platform),
        decreases windows@.len() - i,
    {
        let ghost before = windows@.subrange(0, i as int);
        let ghost after = windows@.subrange(0, i + 1);
        assert(after.drop_last() =~= before);
        assert(after.last() == windows@[i as int]);
        let w = &windows[i];
        match find_main(mains, w.pid) {
            Some(k) => {
                let m = &mains[k];
                let n = count_windows(windows, w.pid);
                proof {
                    lemma_window_count_pos(windows@, i as int);
                }
                let (path, hint) = match &m.argv_workspace {
                    Some(p) => {
                        match workspace_display_name(p, platform) {
                            Some(name) => {
                                if name == w.workspace_name {
                                    (p.clone(), None)
                                } else {
                                    (String::new(), Some(w.workspace_name.clone()))
                                }
                            },
                            None => (String::new(), Some(w.workspace_name.clone())),
                        }
                    },
                    None => (String::new(), Some(w.workspace_name.clone())),
                };
                let c = Contrib {
                    path,
                    hint,
                    ram: m.tree_ram / n,
                    hwnd: Some(w.hwnd),
                    share: CpuShare { main_pid: m.pid, divisor: n },
                };
                let ghost prev = out@;
                out.push(c);
                assert(contrib_views(out@) =~= contrib_views(prev).push(contrib_view(c)));
                assert(contrib_view(c).path =~= window_key(mains@[k as int], w.workspace_name@, platform).0);
            },
            None => {},
        }
        i += 1;
    }
    assert(windows@.subrange(0, windows@.len() as int) =~= windows@);
    out
}

/// What the main processes without windows contribute.
fn fallback_contribution_list(mains: &Vec<MainProcess>, windows: &Vec<WorkspaceWindow>) -> (r: Vec<Contrib>)
    ensures
        contrib_views(r@) == fallback_contributions(mains@, windows@),
{
    let mut out: Vec<Contrib> = Vec::new();
    let mut i: usize = 0;
    while i < mains.len()
        invariant
            i <= mains@.len(),
            contrib_views(out@) == fallback_contributions(mains@.subrange(0, i as int), windows@),
        decreases mains@.len() - i,
    {
        let ghost before = mains@.subrange(0, i as int);
        let ghost after = mains@.subrange(0, i + 1);
        assert(after.drop_last() =~= before);
        assert(after.last() == mains@[i as int]);
        let m = &mains[i];
        match &m.argv_workspace {
            Some(p) => {
                if count_windows(windows, m.pid) == 0 {
                    let c = Contrib {
                        path: p.clone(),
                        hint: None,
                        ram: m.tree_ram,
                        hwnd: None,
                        share: CpuShare { main_pid: m.pid, divisor: 1 },
                    };
                    let ghost prev = out@;
                    out.push(c);
                    assert(contrib_views(out@) =~= contrib_views(prev).push(contrib_view(c)));
                }
            },
            None => {},
        }
        i += 1;
    }
    assert(mains@.subrange(0, mains@.len() as int) =~= mains@);
    out
}

/// The index of the accumulator with key (`path`, `hint`).
fn find_acc(accs: &Vec<Acc>, path: &String, hint: &Option<String>, platform: Platform) -> (r: Option<usize>)
    ensures
        match r {
            Some(k) => k < accs@.len() && tally_index_from(acc_views(accs@), path@, opt_view(*hint), 0, platform) == k,
            None => tally_index_from(acc_views(accs@), path@, opt_view(*hint), 0, platform) == -1,
        },
{
    let ghost ts = acc_views(accs@);
    let mut k: usize = 0;
    while k < accs.len()
        invariant
            k <= accs@.len(),
            ts == acc_views(accs@),
            tally_index_from(ts, path@, opt_view(*hint), 0, platform) == tally_index_from(
                ts,
                path@,
                opt_view(*hint),
                k as int,
                platform,
            ),
        decreases accs@.len() - k,
    {
        assert(ts[k as int] == acc_view(accs@[k as int]));
        if same_path(&accs[k].path, path, platform) && opt_eq(&accs[k].hint, hint) {
            return Some(k);
        }
        k += 1;
    }
    None
}

/// The tallies of contributions `cs`, sums not yet bounded.
fn tally_list(cs: Vec<Contrib>, platform: Platform) -> (r: Vec<Acc>)
    ensures
        acc_views(r@) == tally_all(contrib_views(cs@), platform),
{
    let mut accs: Vec<Acc> = Vec::new();
    let mut cs = cs;
    let ghost all = contrib_views(cs@);
    let n = cs.len();
    let ghost total = n as nat;
    let mut rev: Vec<Contrib> = Vec::new();
    while cs.len() > 0
        invariant
            all.len() == total,
            rev@.len() + cs@.len() == total,
            forall|j: int| 0 <= j < rev@.len() ==> contrib_view(#[trigger] rev@[j]) == all[total - 1 - j],
            forall|j: int| 0 <= j < cs@.len() ==> contrib_view(#[trigger] cs@[j]) == all[j],
        decreases cs@.len(),
    {
        let ghost pre = cs@;
        let c = cs.pop().unwrap();
        assert(pre[pre.len() - 1] == c);
        assert(forall|j: int| 0 <= j < cs@.len() ==> cs@[j] == pre[j]);
        let ghost prev = rev@;
        rev.push(c);
        assert(forall|j: int| 0 <= j < prev.len() ==> rev@[j] == prev[j]);
    }
    let mut i: usize = 0;
    while rev.len() > 0
        invariant
            i + rev@.len() == total,
            all.len() == total,
            total <= usize::MAX,
            forall|j: int| 0 <= j < rev@.len() ==> contrib_view(#[trigger] rev@[j]) == all[total - 1 - j],
            acc_views(accs@) == tally_all(all.subrange(0, i as int), platform),
            forall|j: int| 0 <= j < accs@.len() ==> (#[trigger] accs@[j]).ram <= i * u64::MAX && accs@[j].count <= i,
        decreases rev@.len(),
    {
        let ghost pre = rev@;
        let c = rev.pop().unwrap();
        assert(pre[pre.len() - 1] == c);
        assert(forall|j: int| 0 <= j < rev@.len() ==> rev@[j] == pre[j]);
        let ghost cv = contrib_view(c);
        let ghost before = all.subrange(0, i as int);
        let ghost after = all.subrange(0, i + 1);
        assert(after.drop_last() =~= before);
        assert(after.last() == cv);
        let ghost old_accs = accs@;
        assert((i + 1) * u64::MAX <= u128::MAX) by (nonlinear_arith)
            requires
                i + 1 <= usize::MAX + 1,
        ;
        assert(i * u64::MAX + u64::MAX == (i + 1) * u64::MAX) by (nonlinear_arith);
        match find_acc(&accs, &c.path, &c.hint, platform) {
            Some(k) => {
                let mut a = accs.remove(k);
                assert(acc_view(a) == acc_views(old_accs)[k as int]);
                a.ram = a.ram + c.ram as u128;
                a.count = a.count + 1;
                if a.hwnd.is_none() {
                    a.hwnd = c.hwnd;
                }
                a.shares.push(c.share);
                accs.insert(k, a);
                assert(acc_views(accs@) =~= acc_views(old_accs).update(k as int, acc_view(a)));
                assert(accs@ =~= old_accs.update(k as int, a));
            },
            None => {
                let mut shares: Vec<CpuShare> = Vec::new();
                shares.push(c.share);
                let a = Acc { path: c.path, hint: c.hint, ram: c.ram as u128, count: 1, hwnd: c.hwnd, shares };
                accs.push(a);
                assert(acc_views(accs@) =~= acc_views(old_accs).push(acc_view(a)));
            },
        }
        assert forall|j: int| 0 <= j < accs@.len() implies (#[trigger] accs@[j]).ram <= (i + 1) * u64::MAX && accs@[j].count <= i + 1 by {
            if j < old_accs.len() && accs@[j] == old_accs[j] {
            }
        }
        i += 1;
    }
    assert(all.subrange(0, total as int) =~= all);
    accs
}

/// The per-workspace summary of the main processes `mains` and the
/// workspace windows `windows`.
///
/// Each window of a main process counts for the workspace whose display
/// name it shows: the main's argv path where that path's display name is
/// the window's, else an empty path with the window's name as a hint for
/// the caller to resolve. The window adds the main's tree memory divided
/// by the number of windows of that main, one to the window count, a CPU
/// share, and its handle if the workspace has none yet. A main process
/// without windows adds its whole tree to its argv workspace, if it has
/// one. A workspace is keyed by its path, compared as `Path` equality
/// compares paths (`/a/b` and `/a/b/` are one key), and its hint; it keeps
/// the path text of its first contribution. Workspaces come in the order of
/// their first contribution.
/// `None` where some memory sum does not fit in a `u64` or some window
/// count in a `u32`.
pub fn aggregate_workspaces(mains: &Vec<MainProcess>, windows: &Vec<WorkspaceWindow>, platform: Platform) -> (r: Option<Vec<WorkspaceUsage>>)
    requires
        main_pids_distinct(mains@),
    ensures
        match r {
            Some(us) => us@.map_values(|u: WorkspaceUsage| usage_tally(u)) == workspace_tallies(mains@, windows@, platform),
            None => tallies_overflow(workspace_tallies(mains@, windows@, platform)),
        },
{
    let mut cs = window_contribution_list(mains, windows, platform);
    let mut fallback = fallback_contribution_list(mains, windows);
    let ghost cs0 = cs@;
    let ghost fb0 = fallback@;
    cs.append(&mut fallback);
    assert(contrib_views(cs@) =~= contrib_views(cs0) + contrib_views(fb0));
    let accs = tally_list(cs, platform);
    let ghost ts = acc_views(accs@);
    let mut out: Vec<WorkspaceUsage> = Vec::new();
    let mut i: usize = 0;
    while i < accs.len()
        invariant
            i <= accs@.len(),
            ts == acc_views(accs@),
            ts == workspace_tallies(mains@, windows@, platform),
            out@.map_values(|u: WorkspaceUsage| usage_tally(u)) == ts.subrange(0, i as int),
        decreases accs@.len() - i,
    {
        let a = &accs[i];
        assert(ts[i as int] == acc_view(accs@[i as int]));
        if a.ram > u64::MAX as u128 || a.count > u32::MAX as u64 {
            assert(ts[i as int].ram > u64::MAX || ts[i as int].count > u32::MAX);
            return None;
        }
        let mut shares: Vec<CpuShare> = Vec::new();
        let mut j: usize = 0;
        while j < a.shares.len()
            invariant
                j <= a.shares@.len(),
                shares@ == a.shares@.subrange(0, j as int),
            decreases a.shares@.len() - j,
        {
            shares.push(a.shares[j]);
            j += 1;
            assert(shares@ =~= a.shares@.subrange(0, j as int));
        }
        assert(a.shares@.subrange(0, a.shares@.len() as int) =~= a.shares@);
        let u = WorkspaceUsage {
            path: a.path.clone(),
            display_name_hint: clone_opt(&a.hint),
            ram_bytes: a.ram as u64,
            window_count: a.count as u32,
            hwnd: a.hwnd,
            cpu_shares: shares,
        };
        let ghost prev = out@;
        out.push(u);
        assert(out@.map_values(|u: WorkspaceUsage| usage_tally(u)) =~= prev.map_values(|u: WorkspaceUsage| usage_tally(u)).push(usage_tally(u)));
        assert(ts.subrange(0, i + 1) =~= ts.subrange(0, i as int).push(ts[i as int]));
        i += 1;
    }
    assert(ts.subrange(0, ts.len() as int) =~= ts);
    proof {
        assert(!tallies_overflow(ts)) by {
            assert forall|k: int| 0 <= k < ts.len() implies !(#[trigger] ts[k].ram > u64::MAX || ts[k].count > u32::MAX) by {
                let u = out@[k];
                assert(out@.map_values(|u: WorkspaceUsage| usage_tally(u))[k] == usage_tally(u));
            }
        }
    }
    Some(out)
}


// ---------------------------------------------------------------------------
// Laws
// ---------------------------------------------------------------------------

/// The upper-case hexadecimal digit of a value below 16.
pub open spec fn hex_char(v: int) -> u8 {
    if v < 10 {
        (0x30 + v) as u8
    } else {
        (0x41 + v - 10) as u8
    }
}

/// Every byte of `b` written as an escape `%XX`.
pub open spec fn percent_escaped(b: Seq<u8>) -> Seq<u8>
    decreases b.len(),
{
    if b.len() == 0 {
        seq![]
    } else {
        seq![0x25u8, hex_char(b[0] as int / 16), hex_char(b[0] as int % 16)] + percent_escaped(b.drop_first())
    }
}

proof fn lemma_decode_shift(a: Seq<u8>, t: Seq<u8>, i: int)
    requires
        0 <= i,
    ensures
        percent_decode_from(a + t, a.len() + i) == percent_decode_from(t, i),
    decreases t.len() - i,
{
    let at = a + t;
    let j = a.len() + i;
    if i < t.len() {
        assert(at[j] == t[i]);
        if i + 1 < t.len() {
            assert(at[j + 1] == t[i + 1]);
        }
        if i + 2 < t.len() {
            assert(at[j + 2] == t[i + 2]);
        }
        assert(escape_at(at, j) == escape_at(t, i));
        if escape_at(t, i) {
            assert(escaped_byte(at, j) == escaped_byte(t, i));
            lemma_decode_shift(a, t, i + 3);
        } else {
            lemma_decode_shift(a, t, i + 1);
        }
    }
}

proof fn lemma_hex_char(v: int)
    requires
        0 <= v < 16,
    ensures
        hex_value(hex_char(v)) == Some(v as u8),
{
}

/// Decoding what `percent_escaped` wrote gives the bytes back.
pub proof fn law_percent_round_trip(b: Seq<u8>)
    ensures
        percent_decode_from(percent_escaped(b), 0) == b,
    decreases b.len(),
{
    if b.len() > 0 {
        let x = b[0];
        let head = seq![0x25u8, hex_char(x as int / 16), hex_char(x as int % 16)];
        let rest = percent_escaped(b.drop_first());
        let e = percent_escaped(b);
        assert(e == head + rest);
        lemma_hex_char(x as int / 16);
        lemma_hex_char(x as int % 16);
        assert(e[0] == 0x25u8 && e[1] == hex_char(x as int / 16) && e[2] == hex_char(x as int % 16));
        assert(escape_at(e, 0));
        assert(escaped_byte(e, 0) == x);
        lemma_decode_shift(head, rest, 0);
        law_percent_round_trip(b.drop_first());
        assert(percent_decode_from(e, 0) =~= seq![x] + b.drop_first());
        assert(b =~= seq![x] + b.drop_first());
    }
}

proof fn lemma_decode_no_escape(b: Seq<u8>, i: int)
    requires
        0 <= i <= b.len(),
        forall|k: int| 0 <= k < b.len() ==> #[trigger] b[k] != 0x25u8,
    ensures
        percent_decode_from(b, i) == b.subrange(i, b.len() as int),
    decreases b.len() - i,
{
    if i < b.len() {
        lemma_decode_no_escape(b, i + 1);
        assert(b.subrange(i, b.len() as int) =~= seq![b[i]] + b.subrange(i + 1, b.len() as int));
    } else {
        assert(b.subrange(i, b.len() as int) =~= Seq::<u8>::empty());
    }
}

/// A text written with every byte of its UTF-8 encoding as an escape
/// `%XX` (upper-case hexadecimal digits).
pub open spec fn escaped_text(x: Seq<char>) -> Seq<char> {
    percent_escaped(encode_utf8(x)).map_values(|b: u8| b as char)
}

proof fn lemma_escaped_ascii(b: Seq<u8>)
    ensures
        forall|k: int| 0 <= k < percent_escaped(b).len() ==> #[trigger] percent_escaped(b)[k] < 0x80,
    decreases b.len(),
{
    if b.len() > 0 {
        lemma_escaped_ascii(b.drop_first());
        let head = seq![0x25u8, hex_char(b[0] as int / 16), hex_char(b[0] as int % 16)];
        assert(percent_escaped(b) == head + percent_escaped(b.drop_first()));
    }
}

proof fn lemma_ascii_encodes_to_itself(b: Seq<u8>)
    requires
        forall|k: int| 0 <= k < b.len() ==> #[trigger] b[k] < 0x80,
    ensures
        encode_utf8(b.map_values(|x: u8| x as char)) == b,
    decreases b.len(),
{
    let cs = b.map_values(|x: u8| x as char);
    if b.len() > 0 {
        let c = b[0];
        assert(cs[0] == c as char);
        let u = (c as char) as u32;
        assert(u == c as u32);
        assert((u & 0x7F) as u8 == c) by (bit_vector)
            requires
                u == c as u32,
                c < 0x80,
        ;
        assert(cs.drop_first() =~= b.drop_first().map_values(|x: u8| x as char));
        lemma_ascii_encodes_to_itself(b.drop_first());
        assert(encode_utf8(cs) =~= seq![c] + b.drop_first());
        assert(b =~= seq![c] + b.drop_first());
    }
}

proof fn lemma_no_percent_byte(s: Seq<char>)
    requires
        !s.contains('%'),
    ensures
        forall|k: int| 0 <= k < encode_utf8(s).len() ==> #[trigger] encode_utf8(s)[k] != 0x25u8,
    decreases s.len(),
{
    if s.len() > 0 {
        let c = s[0];
        assert(s[0] != '%');
        let v = c as u32;
        assert(v != 0x25) by {
            assert(('%' as u32) == 0x25);
            if v == 0x25 {
                vstd::utf8::char_u32_cast(c, v);
                vstd::utf8::char_u32_cast('%', v);
            }
        }
        let e = encode_scalar(v);
        assert forall|k: int| 0 <= k < e.len() implies #[trigger] e[k] != 0x25u8 by {
            if v <= 0x7F {
                assert((v & 0x7F) as u8 != 0x25u8) by (bit_vector)
                    requires
                        v <= 0x7F,
                        v != 0x25,
                ;
            }
            assert(0xC0 | ((v >> 6) & 0x1F) as u8 != 0x25u8) by (bit_vector);
            assert(0xE0 | ((v >> 12) & 0x0F) as u8 != 0x25u8) by (bit_vector);
            assert(0xF0 | ((v >> 18) & 0x7) as u8 != 0x25u8) by (bit_vector);
            assert(0x80 | (v & 0x3F) as u8 != 0x25u8) by (bit_vector);
            assert(0x80 | ((v >> 6) & 0x3F) as u8 != 0x25u8) by (bit_vector);
            assert(0x80 | ((v >> 12) & 0x3F) as u8 != 0x25u8) by (bit_vector);
        }
        assert(!s.drop_first().contains('%')) by {
            if s.drop_first().contains('%') {
                let j = choose|j: int| 0 <= j < s.drop_first().len() && s.drop_first()[j] == '%';
                assert(s[j + 1] == '%');
            }
        }
        lemma_no_percent_byte(s.drop_first());
        let r = encode_utf8(s.drop_first());
        assert(encode_utf8(s) == e + r);
        assert forall|k: int| 0 <= k < encode_utf8(s).len() implies #[trigger] encode_utf8(s)[k] != 0x25u8 by {
            if k < e.len() {
                assert(encode_utf8(s)[k] == e[k]);
            } else {
                assert(encode_utf8(s)[k] == r[k - e.len()]);
            }
        }
    }
}

/// Percent-decoding works on texts as it does on bytes: a text written as
/// the escapes of its UTF-8 bytes decodes to valid UTF-8 that reads as the
/// text again, and a text without `%` decodes to itself.
pub proof fn law_percent_decode_text(x: Seq<char>, s: Seq<char>)
    ensures
        valid_utf8(percent_decode_from(encode_utf8(escaped_text(x)), 0)),
        decode_utf8(percent_decode_from(encode_utf8(escaped_text(x)), 0)) == x,
        !s.contains('%') ==> valid_utf8(percent_decode_from(encode_utf8(s), 0)) && decode_utf8(
            percent_decode_from(encode_utf8(s), 0),
        ) == s,
{
    broadcast use vstd::utf8::encode_utf8_valid_utf8, vstd::utf8::encode_utf8_decode_utf8;

    let b = encode_utf8(x);
    lemma_escaped_ascii(b);
    lemma_ascii_encodes_to_itself(percent_escaped(b));
    law_percent_round_trip(b);
    if !s.contains('%') {
        lemma_no_percent_byte(s);
        law_decode_without_escapes(encode_utf8(s));
    }
}

proof fn lemma_parts_tail(
    p: Seq<char>,
    platform: Platform,
    v: bool,
    i: int,
    cur: Seq<char>,
    acc: Seq<Seq<char>>,
    s: int,
)
    requires
        0 <= s <= i <= p.len(),
        forall|j: int| s <= j < p.len() ==> !is_sep_in(#[trigger] p[j], platform, v),
    ensures
        parts_from(p, platform, v, i, cur, acc) == keep_part(acc, cur + p.subrange(i, p.len() as int), v),
    decreases p.len() - i,
{
    if i < p.len() {
        lemma_parts_tail(p, platform, v, i + 1, cur.push(p[i]), acc, s);
        assert(cur.push(p[i]) + p.subrange(i + 1, p.len() as int) =~= cur + p.subrange(i, p.len() as int));
    } else {
        assert(cur + p.subrange(i, p.len() as int) =~= cur);
    }
}

proof fn lemma_parts_last(
    p: Seq<char>,
    platform: Platform,
    v: bool,
    i: int,
    cur: Seq<char>,
    acc: Seq<Seq<char>>,
    s: int,
)
    requires
        0 <= i < s < p.len(),
        is_sep_in(p[s - 1], platform, v),
        forall|j: int| s <= j < p.len() ==> !is_sep_in(#[trigger] p[j], platform, v),
        !v ==> p.subrange(s, p.len() as int) != seq!['.'],
    ensures
        parts_from(p, platform, v, i, cur, acc).len() > 0,
        parts_from(p, platform, v, i, cur, acc).last() == p.subrange(s, p.len() as int),
    decreases s - i,
{
    let f = p.subrange(s, p.len() as int);
    if i == s - 1 {
        let acc2 = keep_part(acc, cur, v);
        lemma_parts_tail(p, platform, v, s, seq![], acc2, s);
        assert(Seq::<char>::empty() + f =~= f);
    } else if is_sep_in(p[i], platform, v) {
        lemma_parts_last(p, platform, v, i + 1, seq![], keep_part(acc, cur, v), s);
    } else {
        lemma_parts_last(p, platform, v, i + 1, cur.push(p[i]), acc, s);
    }
}

/// A verbatim folder joined with a workspace file name ends with that name.
proof fn lemma_verbatim_join_ends_with(dir: Seq<char>, name: Seq<char>, platform: Platform)
    requires
        platform == Platform::Windows,
        is_verbatim(dir, platform),
        name.len() > 0,
        forall|i: int| 0 <= i < name.len() ==> !is_path_separator(#[trigger] name[i], platform),
        !has_drive_prefix(name),
    ensures
        ({
            let f = name + workspace_ext();
            let p = joined_path(dir, f, platform);
            p.len() >= f.len() && p.subrange(p.len() - f.len(), p.len() as int) == f
        }),
{
    reveal_strlit(".code-workspace");
    let ext = workspace_ext();
    assert(ext.len() == 15);
    let f = name + ext;
    assert(f[0] == name[0]);
    assert(!is_slash(f[0]));
    assert(!has_drive_prefix(f)) by {
        if name.len() >= 2 {
            assert(f[1] == name[1]);
        } else {
            assert(f[1] == ext[0]);
        }
    }
    assert forall|j: int| 0 <= j < f.len() implies !is_sep_in(#[trigger] f[j], platform, false) by {
        if j < name.len() {
            assert(f[j] == name[j]);
        } else {
            assert(f[j] == ext[j - name.len()]);
        }
    }
    lemma_parts_tail(f, platform, false, 0, seq![], seq![], 0);
    assert(Seq::<char>::empty() + f.subrange(0, f.len() as int) =~= f);
    assert(f != seq!['.']) by {
        assert(f.len() > 1);
    }
    assert(path_parts(f, platform) =~= seq![f]);
    let bp = path_parts(dir, platform);
    let pieces = seq![f];
    assert(pieces.drop_last() =~= Seq::<Seq<char>>::empty());
    assert(f != seq!['.', '.']) by {
        assert(f.len() > 2);
    }
    let cs = pushed_parts(bp, pieces);
    assert(pushed_parts(bp, Seq::<Seq<char>>::empty()) == bp);
    assert(pushed_parts(bp, pieces.drop_last()) == bp);
    assert(pieces.last() == f);
    assert(cs == bp.push(f));
    assert(cs.drop_last() =~= bp);
    let p = joined_path(dir, f, platform);
    let head = dir.subrange(0, prefix_of(dir, platform).3) + seq!['\\'];
    if bp.len() == 0 {
        assert(cs =~= seq![f]);
        assert(p =~= head + f);
    } else {
        assert(p =~= head + joined_with(bp, '\\') + seq!['\\'] + f);
    }
    assert(p.subrange(p.len() - f.len(), p.len() as int) =~= f);
}

/// The last `n` characters of `p` form a component of their own: they
/// start where the components of `p` start, or right after one of its
/// separators.
pub open spec fn ends_in_own_component(p: Seq<char>, n: int, platform: Platform) -> bool {
    let s = p.len() - n;
    &&& body_start(p, platform) <= s
    &&& (s == body_start(p, platform) || is_sep_in(p[s - 1], platform, is_verbatim(p, platform)))
}

/// A workspace named `name` reads back from its file in any folder: the
/// display name of `dir` joined with `name.code-workspace` is `name`, where
/// the name is not empty, holds no path separator, and
/// `name.code-workspace` is a component of its own in the joined path. (On
/// Windows it is not where a share prefix takes it in, as in
/// `\\s\x.code-workspace`; a name that starts with a drive such as `C:` is
/// no relative name to join.)
#[verifier::spinoff_prover]
#[verifier::rlimit(40)]
pub proof fn law_display_name_round_trip(dir: Seq<char>, name: Seq<char>, platform: Platform)
    requires
        name.len() > 0,
        forall|i: int| 0 <= i < name.len() ==> !is_path_separator(#[trigger] name[i], platform),
        !(platform == Platform::Windows && has_drive_prefix(name)),
        ends_in_own_component(joined_path(dir, name + workspace_ext(), platform), name.len() + 15int, platform),
    ensures
        display_name_of(joined_path(dir, name + workspace_ext(), platform), platform) == Some(name),
{
    reveal_strlit(".code-workspace");
    let ext = workspace_ext();
    assert(ext.len() == 15);
    let f = name + ext;
    let p = joined_path(dir, f, platform);
    let n = p.len() as int;
    let s = n - f.len();
    let v = is_verbatim(p, platform);
    if platform == Platform::Windows && is_verbatim(dir, platform) {
        lemma_verbatim_join_ends_with(dir, name, platform);
    }
    assert(p.subrange(s, n) =~= f);
    assert forall|j: int| s <= j < n implies !is_sep_in(#[trigger] p[j], platform, v) by {
        assert(p[j] == f[j - s]);
        if j - s < name.len() {
            assert(f[j - s] == name[j - s]);
        } else {
            assert(f[j - s] == ext[j - s - name.len()]);
        }
    }
    assert(f != seq!['.']) by {
        assert(f.len() > 1);
    }
    let bs = body_start(p, platform);
    lemma_prefix_bounds(p, platform);
    if s == bs {
        lemma_parts_tail(p, platform, v, s, seq![], seq![], s);
        assert(Seq::<char>::empty() + f =~= f);
        assert(path_parts(p, platform) =~= seq![f]);
    } else {
        lemma_parts_last(p, platform, v, bs, seq![], seq![], s);
    }
    let ps = path_parts(p, platform);
    assert(ps.last() == f);
    assert(f != seq!['.', '.']) by {
        assert(f.len() > 2);
    }
    assert(path_file_name(p, platform) == Some(f));
    assert(has_suffix(f, ext)) by {
        assert(f.subrange(f.len() - ext.len(), f.len() as int) =~= ext);
    }
    assert(f.subrange(0, f.len() - ext.len()) =~= name);
}

/// Bytes without `%` decode to themselves.
pub proof fn law_decode_without_escapes(b: Seq<u8>)
    requires
        forall|k: int| 0 <= k < b.len() ==> #[trigger] b[k] != 0x25u8,
    ensures
        percent_decode_from(b, 0) == b,
{
    lemma_decode_no_escape(b, 0);
    assert(b.subrange(0, b.len() as int) =~= b);
}

/// Only a main Electron process carries a workspace, and for a main
/// process it is the first entry that names one.
pub proof fn law_only_mains_carry_workspaces(args: Seq<Seq<char>>)
    ensures
        !is_main_electron_args(args) ==> workspace_path_from_args(args) is None,
        is_main_electron_args(args) ==> workspace_path_from_args(args) == first_workspace_arg(args),
{
}

/// Normalizing a normalized Windows path changes nothing, unless the path
/// held the `\\?\` prefix twice; off Windows nothing is changed at all.
pub proof fn law_normalize_idempotent(p: Seq<char>, platform: Platform)
    requires
        !(has_prefix(p, verbatim_prefix()) && has_prefix(drop_prefix(p, verbatim_prefix().len()), verbatim_prefix())),
    ensures
        normalized_path(normalized_path(p, platform), platform) == normalized_path(p, platform),
        platform != Platform::Windows ==> normalized_path(p, platform) == p,
{
    if platform == Platform::Windows {
        reveal_strlit("\\\\?\\");
        let s = if has_prefix(p, verbatim_prefix()) {
            drop_prefix(p, verbatim_prefix().len())
        } else {
            p
        };
        assert(!has_prefix(s, verbatim_prefix()));
        let n = normalized_path(p, platform);
        if has_drive_prefix(s) && 'a' <= s[0] && s[0] <= 'z' {
            assert(n[0] != '\\');
            assert(!has_prefix(n, verbatim_prefix())) by {
                if has_prefix(n, verbatim_prefix()) {
                    assert(n.subrange(0, 4)[0] == n[0]);
                }
            }
            assert(has_drive_prefix(n) && !('a' <= n[0] && n[0] <= 'z'));
        } else {
            assert(n == s);
        }
    }
}

/// A process tree holds its root, and the children of each of its members.
pub proof fn law_tree_closed(ps: Seq<ProcessInfo>, root: u32, a: u32, b: u32)
    ensures
        in_tree(ps, root, root),
        in_tree(ps, root, a) && is_child(ps, a, b) ==> in_tree(ps, root, b),
{
    if in_tree(ps, root, a) && is_child(ps, a, b) {
        assert forall|s: Set<u32>| #[trigger] s.contains(root) && closed_under_children(s, ps) implies s.contains(b) by {
            assert(s.contains(a));
        }
    }
}


/// No two tallies share a key: their paths are not one path, or their
/// hints differ.
pub open spec fn tally_keys_distinct(ts: Seq<Tally>, platform: Platform) -> bool {
    forall|i: int, j: int| 0 <= i < j < ts.len() ==> !has_key(#[trigger] ts[i], (#[trigger] ts[j]).path, ts[j].hint, platform)
}

/// The window counts of all tallies together.
pub open spec fn total_count(ts: Seq<Tally>) -> int
    decreases ts.len(),
{
    if ts.len() == 0 {
        0
    } else {
        total_count(ts.drop_last()) + ts.last().count
    }
}

/// The memory of all tallies together.
pub open spec fn total_ram(ts: Seq<Tally>) -> int
    decreases ts.len(),
{
    if ts.len() == 0 {
        0
    } else {
        total_ram(ts.drop_last()) + ts.last().ram
    }
}

/// The memory of all contributions together.
pub open spec fn contributed_ram(cs: Seq<Contribution>) -> int
    decreases cs.len(),
{
    if cs.len() == 0 {
        0
    } else {
        contributed_ram(cs.drop_last()) + cs.last().ram
    }
}

proof fn lemma_tally_index(ts: Seq<Tally>, path: Seq<char>, hint: Option<Seq<char>>, k: int, platform: Platform)
    requires
        0 <= k,
    ensures
        ({
            let r = tally_index_from(ts, path, hint, k, platform);
            &&& r >= 0 ==> k <= r < ts.len() && has_key(ts[r], path, hint, platform)
            &&& r < 0 ==> r == -1 && forall|j: int| k <= j < ts.len() ==> !has_key(#[trigger] ts[j], path, hint, platform)
        }),
    decreases ts.len() - k,
{
    if k < ts.len() && !has_key(ts[k], path, hint, platform) {
        lemma_tally_index(ts, path, hint, k + 1, platform);
    }
}

proof fn lemma_totals_update(ts: Seq<Tally>, k: int, t: Tally)
    requires
        0 <= k < ts.len(),
    ensures
        total_count(ts.update(k, t)) == total_count(ts) - ts[k].count + t.count,
        total_ram(ts.update(k, t)) == total_ram(ts) - ts[k].ram + t.ram,
    decreases ts.len(),
{
    let u = ts.update(k, t);
    if k < ts.len() - 1 {
        lemma_totals_update(ts.drop_last(), k, t);
        assert(u.drop_last() =~= ts.drop_last().update(k, t));
    } else {
        assert(u.drop_last() =~= ts.drop_last());
    }
}

proof fn lemma_tally_all_facts(cs: Seq<Contribution>, platform: Platform)
    ensures
        tally_keys_distinct(tally_all(cs, platform), platform),
        total_count(tally_all(cs, platform)) == cs.len(),
        total_ram(tally_all(cs, platform)) == contributed_ram(cs),
        forall|i: int|
            0 <= i < tally_all(cs, platform).len() ==> (#[trigger] tally_all(cs, platform)[i]).count == tally_all(
                cs,
                platform,
            )[i].shares.len() && tally_all(cs, platform)[i].count >= 1,
    decreases cs.len(),
{
    if cs.len() > 0 {
        let q = cs.drop_last();
        let c = cs.last();
        lemma_tally_all_facts(q, platform);
        let ts = tally_all(q, platform);
        lemma_tally_index(ts, c.path, c.hint, 0, platform);
        let k = tally_index_from(ts, c.path, c.hint, 0, platform);
        let r = tally_all(cs, platform);
        if k >= 0 {
            let t = ts[k];
            let nt = Tally {
                path: t.path,
                hint: t.hint,
                ram: t.ram + c.ram,
                count: t.count + 1,
                hwnd: if t.hwnd is Some {
                    t.hwnd
                } else {
                    c.hwnd
                },
                shares: t.shares.push(c.share),
            };
            assert(r == ts.update(k, nt));
            lemma_totals_update(ts, k, nt);
            assert forall|i: int, j: int| 0 <= i < j < r.len() implies !has_key(
                #[trigger] r[i],
                (#[trigger] r[j]).path,
                r[j].hint,
                platform,
            ) by {
                assert(r[i].path == ts[i].path && r[i].hint == ts[i].hint);
                assert(r[j].path == ts[j].path && r[j].hint == ts[j].hint);
                assert(!has_key(ts[i], ts[j].path, ts[j].hint, platform));
            }
            assert forall|i: int| 0 <= i < r.len() implies (#[trigger] r[i]).count == r[i].shares.len() && r[i].count >= 1 by {
                if i != k {
                    assert(r[i] == ts[i]);
                }
            }
        } else {
            let nt = Tally { path: c.path, hint: c.hint, ram: c.ram, count: 1, hwnd: c.hwnd, shares: seq![c.share] };
            assert(r == ts.push(nt));
            assert(r.drop_last() =~= ts);
            assert forall|i: int, j: int| 0 <= i < j < r.len() implies !has_key(
                #[trigger] r[i],
                (#[trigger] r[j]).path,
                r[j].hint,
                platform,
            ) by {
                assert(r[i] == ts[i]);
                if j == ts.len() {
                    assert(!has_key(ts[i], c.path, c.hint, platform));
                } else {
                    assert(r[j] == ts[j]);
                    assert(!has_key(ts[i], ts[j].path, ts[j].hint, platform));
                }
            }
            assert forall|i: int| 0 <= i < r.len() implies (#[trigger] r[i]).count == r[i].shares.len() && r[i].count >= 1 by {
                if i < ts.len() {
                    assert(r[i] == ts[i]);
                }
            }
        }
    }
}

/// One entry per workspace, and nothing lost: no two workspaces share a key;
/// their window counts add up to the number of windows of main processes
/// plus the main processes without windows that carry a workspace; their
/// memory adds up to what all of these contributed; each counts at least
/// one window and one CPU share per window.
pub proof fn law_workspace_summary(ms: Seq<MainProcess>, ws: Seq<WorkspaceWindow>, platform: Platform)
    ensures
        tally_keys_distinct(workspace_tallies(ms, ws, platform), platform),
        total_count(workspace_tallies(ms, ws, platform)) == contributions(ms, ws, platform).len(),
        total_ram(workspace_tallies(ms, ws, platform)) == contributed_ram(contributions(ms, ws, platform)),
        forall|i: int|
            0 <= i < workspace_tallies(ms, ws, platform).len() ==> (#[trigger] workspace_tallies(ms, ws, platform)[i]).count
                == workspace_tallies(ms, ws, platform)[i].shares.len() && workspace_tallies(ms, ws, platform)[i].count >= 1,
{
    lemma_tally_all_facts(contributions(ms, ws, platform), platform);
}


/// The number of contributions of `cs` whose path is one path with `path`
/// and whose hint is `hint`.
pub open spec fn key_count(cs: Seq<Contribution>, path: Seq<char>, hint: Option<Seq<char>>, platform: Platform) -> int
    decreases cs.len(),
{
    if cs.len() == 0 {
        0
    } else {
        key_count(cs.drop_last(), path, hint, platform) + if path_id(cs.last().path, platform) == path_id(
            path,
            platform,
        ) && cs.last().hint == hint {
            1int
        } else {
            0int
        }
    }
}

proof fn lemma_key_count_nonneg(cs: Seq<Contribution>, path: Seq<char>, hint: Option<Seq<char>>, platform: Platform)
    ensures
        key_count(cs, path, hint, platform) >= 0,
    decreases cs.len(),
{
    if cs.len() > 0 {
        lemma_key_count_nonneg(cs.drop_last(), path, hint, platform);
    }
}

proof fn lemma_key_count_witness(cs: Seq<Contribution>, path: Seq<char>, hint: Option<Seq<char>>, platform: Platform)
    requires
        key_count(cs, path, hint, platform) > 0,
    ensures
        exists|i: int|
            0 <= i < cs.len() && path_id(#[trigger] cs[i].path, platform) == path_id(path, platform) && cs[i].hint
                == hint,
    decreases cs.len(),
{
    let q = cs.drop_last();
    if key_count(q, path, hint, platform) > 0 {
        lemma_key_count_witness(q, path, hint, platform);
        let i = choose|i: int|
            0 <= i < q.len() && path_id(#[trigger] q[i].path, platform) == path_id(path, platform) && q[i].hint
                == hint;
        assert(cs[i] == q[i]);
    } else {
        assert(cs[cs.len() - 1] == cs.last());
    }
}

proof fn lemma_tally_groups(cs: Seq<Contribution>, platform: Platform)
    ensures
        forall|i: int|
            0 <= i < cs.len() ==> exists|j: int|
                0 <= j < tally_all(cs, platform).len() && path_id(tally_all(cs, platform)[j].path, platform) == path_id(
                    (#[trigger] cs[i]).path,
                    platform,
                ) && tally_all(cs, platform)[j].hint == cs[i].hint,
        forall|j: int|
            0 <= j < tally_all(cs, platform).len() ==> (#[trigger] tally_all(cs, platform)[j]).count == key_count(
                cs,
                tally_all(cs, platform)[j].path,
                tally_all(cs, platform)[j].hint,
                platform,
            ),
    decreases cs.len(),
{
    if cs.len() > 0 {
        let q = cs.drop_last();
        let c = cs.last();
        lemma_tally_groups(q, platform);
        lemma_tally_all_facts(q, platform);
        let ts = tally_all(q, platform);
        let r = tally_all(cs, platform);
        lemma_tally_index(ts, c.path, c.hint, 0, platform);
        let k = tally_index_from(ts, c.path, c.hint, 0, platform);
        assert forall|i: int| 0 <= i < q.len() implies q[i] == cs[i] by {}
        if k >= 0 {
            assert forall|j: int| 0 <= j < ts.len() implies r[j].path == ts[j].path && r[j].hint == ts[j].hint && (j
                != k ==> r[j] == ts[j]) by {}
            assert forall|j: int| 0 <= j < r.len() implies (#[trigger] r[j]).count == key_count(
                cs,
                r[j].path,
                r[j].hint,
                platform,
            ) by {
                if j != k {
                    if has_key(ts[j], c.path, c.hint, platform) {
                        if j < k {
                        } else {
                            assert(!has_key(ts[k], ts[j].path, ts[j].hint, platform));
                        }
                    }
                }
            }
        } else {
            assert forall|j: int| 0 <= j < ts.len() implies r[j] == ts[j] by {}
            assert(key_count(q, c.path, c.hint, platform) == 0) by {
                lemma_key_count_nonneg(q, c.path, c.hint, platform);
                if key_count(q, c.path, c.hint, platform) > 0 {
                    lemma_key_count_witness(q, c.path, c.hint, platform);
                    let i = choose|i: int|
                        0 <= i < q.len() && path_id(#[trigger] q[i].path, platform) == path_id(c.path, platform)
                            && q[i].hint == c.hint;
                    let qi = q[i];
                    assert(exists|j: int|
                        0 <= j < ts.len() && path_id(ts[j].path, platform) == path_id(qi.path, platform)
                            && ts[j].hint == qi.hint);
                    let j = choose|j: int|
                        0 <= j < ts.len() && path_id(ts[j].path, platform) == path_id(qi.path, platform)
                            && ts[j].hint == qi.hint;
                    assert(has_key(ts[j], c.path, c.hint, platform));
                    assert(!has_key(ts[j], c.path, c.hint, platform));
                }
            }
            assert forall|j: int| 0 <= j < r.len() implies (#[trigger] r[j]).count == key_count(
                cs,
                r[j].path,
                r[j].hint,
                platform,
            ) by {
                if j < ts.len() {
                    assert(!has_key(ts[j], c.path, c.hint, platform));
                }
            }
        }
        assert forall|i: int| 0 <= i < cs.len() implies exists|j: int|
            0 <= j < r.len() && path_id(r[j].path, platform) == path_id((#[trigger] cs[i]).path, platform) && r[j].hint
                == cs[i].hint by {
            if i < q.len() {
                let j = choose|j: int|
                    0 <= j < ts.len() && path_id(ts[j].path, platform) == path_id((#[trigger] q[i]).path, platform)
                        && ts[j].hint == q[i].hint;
                assert(r[j].path == ts[j].path && r[j].hint == ts[j].hint);
            } else if k >= 0 {
                assert(r[k].path == ts[k].path && r[k].hint == ts[k].hint);
            } else {
                assert(r[ts.len() as int].path == c.path);
            }
        }
    }
}

/// Workspaces are told apart by path and hint: every contribution (a
/// window, or a windowless main process with a workspace) is counted in an
/// entry with its path (as `Path` equality sees it) and its hint, and each
/// entry counts exactly the contributions with its path and hint. So two
/// windows showing two different workspaces that the argv does not name
/// give two entries, one for each name.
pub proof fn law_one_entry_per_path_and_hint(ms: Seq<MainProcess>, ws: Seq<WorkspaceWindow>, platform: Platform)
    ensures
        forall|i: int|
            0 <= i < contributions(ms, ws, platform).len() ==> exists|j: int|
                0 <= j < workspace_tallies(ms, ws, platform).len() && path_id(
                    workspace_tallies(ms, ws, platform)[j].path,
                    platform,
                ) == path_id((#[trigger] contributions(ms, ws, platform)[i]).path, platform) && workspace_tallies(
                    ms,
                    ws,
                    platform,
                )[j].hint == contributions(ms, ws, platform)[i].hint,
        forall|j: int|
            0 <= j < workspace_tallies(ms, ws, platform).len() ==> (#[trigger] workspace_tallies(ms, ws, platform)[j]).count
                == key_count(
                contributions(ms, ws, platform),
                workspace_tallies(ms, ws, platform)[j].path,
                workspace_tallies(ms, ws, platform)[j].hint,
                platform,
            ),
{
    lemma_tally_groups(contributions(ms, ws, platform), platform);
}

proof fn lemma_encode_ascii_head(c: char, x: Seq<char>)
    requires
        (c as u32) < 0x80,
    ensures
        encode_utf8(seq![c] + x) == seq![c as u8] + encode_utf8(x),
{
    let s = seq![c] + x;
    assert(s[0] == c);
    assert(s.drop_first() =~= x);
    let u = c as u32;
    assert((u & 0x7F) as u8 == u as u8) by (bit_vector)
        requires
            u < 0x80,
    ;
    assert((c as u8) == (u as u8));
    assert(encode_scalar(u) =~= seq![c as u8]);
}

/// A Windows drive written `d:` right after the leading `/` of a file URI
/// makes the URI a Windows path exactly as `d%3A` (or `d%3a`) does: the
/// leading `/` goes, the rest is percent-decoded and its `/` become `\`.
/// (The drive and at least two more bytes are needed, as the URI test
/// reads four bytes.)
pub proof fn law_drive_uri_is_windows_path(d: char, x: Seq<char>)
    requires
        is_ascii_letter(d),
        encode_utf8(x).len() >= 2,
    ensures
        file_uri_path(seq!['/', d, ':'] + x) == backslashed(
            utf8_lossy(seq![d as u8, 0x3Au8] + percent_decode_from(encode_utf8(x), 0)),
        ),
        file_uri_path(seq!['/', d, '%', '3', 'A'] + x) == file_uri_path(seq!['/', d, ':'] + x),
        file_uri_path(seq!['/', d, '%', '3', 'a'] + x) == file_uri_path(seq!['/', d, ':'] + x),
{
    let ex = encode_utf8(x);
    let d8 = d as u8;
    assert(('/' as u32) == 0x2F && (':' as u32) == 0x3A && ('%' as u32) == 0x25);
    assert(('3' as u32) == 0x33 && ('A' as u32) == 0x41 && ('a' as u32) == 0x61);
    assert((d as u32) < 0x80);
    // `/d:` + x
    let x2 = seq![':'] + x;
    let x1 = seq![d] + x2;
    let x0 = seq!['/'] + x1;
    assert(x0 =~= seq!['/', d, ':'] + x);
    lemma_encode_ascii_head(':', x);
    lemma_encode_ascii_head(d, x2);
    lemma_encode_ascii_head('/', x1);
    let head = seq![0x2Fu8, d8, 0x3Au8];
    let b = head + ex;
    assert(('/' as u8) == 0x2Fu8 && (':' as u8) == 0x3Au8);
    assert(encode_utf8(x0) =~= b);
    assert(is_ascii_alpha_byte(b[1]));
    assert(is_windows_uri_path(seq!['/', d, ':'] + x));
    assert(b[1] == d8 && b[2] == 0x3Au8);
    assert(!escape_at(b, 1));
    assert(!escape_at(b, 2));
    lemma_decode_shift(head, ex, 0);
    assert(percent_decode_from(b, 3) == percent_decode_from(ex, 0));
    assert(percent_decode_from(b, 2) == seq![0x3Au8] + percent_decode_from(b, 3));
    assert(percent_decode_from(b, 1) == seq![d8] + percent_decode_from(b, 2));
    assert(percent_decode_from(b, 1) =~= seq![d8, 0x3Au8] + percent_decode_from(ex, 0));
    // `/d%3A` + x and `/d%3a` + x
    lemma_drive_escape(d, x, 'A');
    lemma_drive_escape(d, x, 'a');
}

proof fn lemma_drive_escape(d: char, x: Seq<char>, h: char)
    requires
        is_ascii_letter(d),
        encode_utf8(x).len() >= 2,
        h == 'A' || h == 'a',
    ensures
        file_uri_path(seq!['/', d, '%', '3', h] + x) == backslashed(
            utf8_lossy(seq![d as u8, 0x3Au8] + percent_decode_from(encode_utf8(x), 0)),
        ),
{
    let ex = encode_utf8(x);
    let d8 = d as u8;
    let h8 = h as u8;
    assert(('/' as u32) == 0x2F && ('%' as u32) == 0x25 && ('3' as u32) == 0x33);
    assert(('A' as u32) == 0x41 && ('a' as u32) == 0x61);
    assert((d as u32) < 0x80 && (h as u32) < 0x80);
    let x4 = seq![h] + x;
    let x3 = seq!['3'] + x4;
    let x2 = seq!['%'] + x3;
    let x1 = seq![d] + x2;
    let x0 = seq!['/'] + x1;
    assert(x0 =~= seq!['/', d, '%', '3', h] + x);
    lemma_encode_ascii_head(h, x);
    lemma_encode_ascii_head('3', x4);
    lemma_encode_ascii_head('%', x3);
    lemma_encode_ascii_head(d, x2);
    lemma_encode_ascii_head('/', x1);
    let head = seq![0x2Fu8, d8, 0x25u8, 0x33u8, h8];
    let b = head + ex;
    assert(('/' as u8) == 0x2Fu8 && ('%' as u8) == 0x25u8 && ('3' as u8) == 0x33u8);
    assert(encode_utf8(x0) =~= b);
    assert(is_ascii_alpha_byte(b[1]));
    assert(is_windows_uri_path(seq!['/', d, '%', '3', h] + x));
    assert(b[1] == d8 && b[2] == 0x25u8 && b[3] == 0x33u8 && b[4] == h8);
    assert(!escape_at(b, 1));
    assert(escape_at(b, 2));
    assert(escaped_byte(b, 2) == 0x3Au8);
    lemma_decode_shift(head, ex, 0);
    assert(percent_decode_from(b, 5) == percent_decode_from(ex, 0));
    assert(percent_decode_from(b, 2) == seq![0x3Au8] + percent_decode_from(b, 5));
    assert(percent_decode_from(b, 1) == seq![d8] + percent_decode_from(b, 2));
    assert(percent_decode_from(b, 1) =~= seq![d8, 0x3Au8] + percent_decode_from(ex, 0));
}

} // verus!
