//! Workspace names read off the titles of top-level VSCode windows.
//!
//! The main VSCode process's argv reflects only the first workspace it was
//! launched with; later workspaces open as new windows of the same process.
//! Reading the window titles catches every open workspace.
use vstd::prelude::*;

use crate::text::{
    alphanumeric_flags, is_ws, chars_of, ends_with, has_suffix, is_alphanumeric, matches_at,
    matches_at_exec, opt_view, string_of, subvec, trim_end_at, trim_end_index, trim_start_at,
    trim_start_index,
};

verus! {

/// The text that every VSCode window title ends with.
pub open spec fn vscode_suffix() -> Seq<char> {
    " - Visual Studio Code"@
}

/// The marker that a window holds a `.code-workspace` file.
pub open spec fn workspace_marker() -> Seq<char> {
    "(Workspace)"@
}

/// The separator between the active editor and the workspace name.
pub open spec fn editor_separator() -> Seq<char> {
    " - "@
}

/// The start of the last occurrence of `pat` that ends at or before `e`,
/// looking at starts `k` and below; `-1` where there is none.
pub open spec fn last_match_from(t: Seq<char>, pat: Seq<char>, e: int, k: int) -> int
    decreases k + 1,
{
    if k < 0 {
        -1
    } else if k + pat.len() <= e && matches_at(t, k, pat) {
        k
    } else {
        last_match_from(t, pat, e, k - 1)
    }
}

/// The start of the last occurrence of `pat` inside `t[0..e]`, or `-1`.
pub open spec fn last_match(t: Seq<char>, pat: Seq<char>, e: int) -> int {
    last_match_from(t, pat, e, e - pat.len())
}

/// The first index in `s..e` whose flag is set, or `e` where none is.
pub open spec fn skip_unflagged(flags: Seq<bool>, s: int, e: int) -> int
    decreases e - s,
{
    if s < e && !flags[s] {
        skip_unflagged(flags, s + 1, e)
    } else {
        s
    }
}

/// Where the workspace name lies in title `t`, given for every character
/// of `t` whether it is alphanumeric:
/// 1. the title must end with `" - Visual Studio Code"`;
/// 2. what precedes it, with trailing whitespace dropped, must end with
///    `"(Workspace)"`; what precedes that, trailing whitespace dropped, is kept;
/// 3. only the text after the last `" - "` in it counts;
/// 4. leading characters that are not alphanumeric are dropped, then
///    whitespace on both ends;
/// 5. an empty remainder is no name.
pub open spec fn workspace_name_span(t: Seq<char>, alnum: Seq<bool>) -> Option<(int, int)> {
    let n = t.len() as int;
    if !has_suffix(t, vscode_suffix()) {
        None
    } else {
        let e1 = n - vscode_suffix().len();
        let e2 = trim_end_index(t, 0, e1);
        let m = workspace_marker().len() as int;
        if !(e2 >= m && matches_at(t, e2 - m, workspace_marker())) {
            None
        } else {
            let e3 = trim_end_index(t, 0, e2 - m);
            let k = last_match(t, editor_separator(), e3);
            let start = if k >= 0 {
                k + editor_separator().len()
            } else {
                0
            };
            let a = skip_unflagged(alnum, start, e3);
            let b = trim_start_index(t, a, e3);
            let c = trim_end_index(t, b, e3);
            if b == c {
                None
            } else {
                Some((b, c))
            }
        }
    }
}

/// The workspace name that title `t` shows, given the alphanumeric flags of
/// its characters.
pub open spec fn workspace_name_of(t: Seq<char>, alnum: Seq<bool>) -> Option<Seq<char>> {
    match workspace_name_span(t, alnum) {
        Some((b, c)) => Some(t.subrange(b, c)),
        None => None,
    }
}

/// A top-level window that shows a VSCode workspace.
#[derive(Debug, Clone)]
pub struct WorkspaceWindow {
    pub pid: u32,
    pub workspace_name: String,
    pub hwnd: i64,
}

/// The start of the last `pat` inside `t[0..e]`.
fn last_match_exec(t: &Vec<char>, pat: &Vec<char>, e: usize) -> (r: Option<usize>)
    requires
        e <= t.len(),
    ensures
        match r {
            Some(k) => last_match(t@, pat@, e as int) == k as int && k + pat@.len() <= e,
            None => last_match(t@, pat@, e as int) == -1,
        },
{
    if pat.len() > e {
        return None;
    }
    let mut k = e - pat.len();
    loop
        invariant
            pat.len() <= e <= t.len(),
            k <= e - pat.len(),
            last_match(t@, pat@, e as int) == last_match_from(t@, pat@, e as int, k as int),
        decreases k,
    {
        if matches_at_exec(t, k, pat) {
            return Some(k);
        }
        if k == 0 {
            assert(last_match_from(t@, pat@, e as int, -1) == -1);
            return None;
        }
        k -= 1;
    }
}

/// The first index in `s..e` whose flag is set, or `e`.
fn skip_unflagged_exec(flags: &Vec<bool>, s: usize, e: usize) -> (r: usize)
    requires
        s <= e <= flags.len(),
    ensures
        r == skip_unflagged(flags@, s as int, e as int),
        s <= r <= e,
{
    let mut i = s;
    while i < e && !flags[i]
        invariant
            s <= i <= e <= flags.len(),
            skip_unflagged(flags@, i as int, e as int) == skip_unflagged(
                flags@,
                s as int,
                e as int,
            ),
        decreases e - i,
    {
        i += 1;
    }
    i
}

/// The workspace name shown by the title with characters `title`, where
/// `alnum[i]` tells whether `title[i]` is alphanumeric.
pub fn workspace_name_from_title_chars(title: &Vec<char>, alnum: &Vec<bool>) -> (r: Option<
    String,
>)
    requires
        alnum.len() == title.len(),
    ensures
        opt_view(r) == workspace_name_of(title@, alnum@),
{
    let t = title;
    let suffix = chars_of(" - Visual Studio Code");
    let marker = chars_of("(Workspace)");
    let sep = chars_of(" - ");
    if !ends_with(t, &suffix) {
        return None;
    }
    let e1 = t.len() - suffix.len();
    let e2 = trim_end_at(t, 0, e1);
    if e2 < marker.len() || !matches_at_exec(t, e2 - marker.len(), &marker) {
        return None;
    }
    let e3 = trim_end_at(t, 0, e2 - marker.len());
    let start = match last_match_exec(t, &sep, e3) {
        Some(k) => k + sep.len(),
        None => 0,
    };
    let a = skip_unflagged_exec(alnum, start, e3);
    let b = trim_start_at(t, a, e3);
    let c = trim_end_at(t, b, e3);
    if b == c {
        return None;
    }
    let name = subvec(t, b, c);
    Some(string_of(&name))
}

/// Given a top-level window title, the workspace display name if the window
/// is a VSCode workspace window; `None` for other windows, for single-folder
/// VSCode windows (no `.code-workspace` file), and for titles that cannot
/// be parsed with confidence.
pub fn extract_workspace_name_from_title(title: &str) -> (r: Option<String>)
    ensures
        opt_view(r) == workspace_name_of(title@, alphanumeric_flags(title@)),
        forall|i: int|
            0 <= i < title@.len() && (title@[i] == ' ' || title@[i] == '-') ==> !#[trigger] alphanumeric_flags(
                title@,
            )[i],
{
    let t = chars_of(title);
    let mut alnum: Vec<bool> = Vec::new();
    let mut i: usize = 0;
    while i < t.len()
        invariant
            i <= t.len(),
            t@ == title@,
            alnum@ == alphanumeric_flags(t@).subrange(0, i as int),
            forall|j: int|
                0 <= j < i && (t@[j] == ' ' || t@[j] == '-') ==> !#[trigger] alphanumeric_flags(t@)[j],
        decreases t.len() - i,
    {
        let f = is_alphanumeric(t[i]);
        alnum.push(f);
        i += 1;
        assert(alnum@ =~= alphanumeric_flags(t@).subrange(0, i as int));
    }
    assert(alnum@ =~= alphanumeric_flags(t@));
    workspace_name_from_title_chars(&t, &alnum)
}

/// The workspace windows currently on screen. Where the platform gives no
/// way to list windows, there are none.
pub fn enumerate_workspace_windows() -> (r: Vec<WorkspaceWindow>)
    ensures
        r@.len() == 0,
{
    Vec::new()
}


/// The text between a workspace name and the VSCode suffix in a title.
pub open spec fn workspace_tag() -> Seq<char> {
    " (Workspace)"@
}

proof fn lemma_trim_end_props(t: Seq<char>, lo: int, e: int)
    requires
        0 <= lo <= e <= t.len(),
    ensures
        lo <= trim_end_index(t, lo, e) <= e,
        trim_end_index(t, lo, e) == lo || !is_ws(t[trim_end_index(t, lo, e) - 1]),
    decreases e - lo,
{
    if lo < e && is_ws(t[e - 1]) {
        lemma_trim_end_props(t, lo, e - 1);
    }
}

proof fn lemma_trim_start_props(t: Seq<char>, st: int, e: int)
    requires
        0 <= st <= e <= t.len(),
    ensures
        st <= trim_start_index(t, st, e) <= e,
        trim_start_index(t, st, e) == e || !is_ws(t[trim_start_index(t, st, e)]),
    decreases e - st,
{
    if st < e && is_ws(t[st]) {
        lemma_trim_start_props(t, st + 1, e);
    }
}

proof fn lemma_skip_props(flags: Seq<bool>, st: int, e: int)
    requires
        0 <= st <= e <= flags.len(),
    ensures
        st <= skip_unflagged(flags, st, e) <= e,
        skip_unflagged(flags, st, e) == e || flags[skip_unflagged(flags, st, e)],
    decreases e - st,
{
    if st < e && !flags[st] {
        lemma_skip_props(flags, st + 1, e);
    }
}

/// A workspace name read off a title is never empty, and neither starts
/// nor ends with whitespace.
pub proof fn law_name_is_trimmed(t: Seq<char>, alnum: Seq<bool>)
    requires
        alnum.len() == t.len(),
    ensures
        workspace_name_of(t, alnum) matches Some(n) ==> n.len() > 0 && !is_ws(n[0]) && !is_ws(n.last()),
{
    if let Some((b, c)) = workspace_name_span(t, alnum) {
        let n = t.len() as int;
        let e1 = n - vscode_suffix().len();
        let e2 = trim_end_index(t, 0, e1);
        let m = workspace_marker().len() as int;
        lemma_trim_end_props(t, 0, e1);
        let e3 = trim_end_index(t, 0, e2 - m);
        lemma_trim_end_props(t, 0, e2 - m);
        let k = last_match(t, editor_separator(), e3);
        lemma_last_match_props(t, editor_separator(), e3, e3 - editor_separator().len());
        let start = if k >= 0 {
            k + editor_separator().len()
        } else {
            0
        };
        let a = skip_unflagged(alnum, start, e3);
        lemma_skip_props(alnum, start, e3);
        lemma_trim_start_props(t, a, e3);
        lemma_trim_end_props(t, b, e3);
        let name = t.subrange(b, c);
        assert(name[0] == t[b]);
        assert(name.last() == t[c - 1]);
    }
}

proof fn lemma_last_match_props(t: Seq<char>, pat: Seq<char>, e: int, k: int)
    requires
        e <= t.len(),
    ensures
        -1 <= last_match_from(t, pat, e, k) <= if k < 0 { -1 } else { k },
        last_match_from(t, pat, e, k) >= 0 ==> last_match_from(t, pat, e, k) + pat.len() <= e,
    decreases k + 1,
{
    if k >= 0 && !(k + pat.len() <= e && matches_at(t, k, pat)) {
        lemma_last_match_props(t, pat, e, k - 1);
    }
}

proof fn lemma_last_match_at(t: Seq<char>, pat: Seq<char>, e: int, k: int, target: int)
    requires
        -1 <= target <= k,
        target >= 0 ==> target + pat.len() <= e && matches_at(t, target, pat),
        forall|j: int| target < j <= k && j + pat.len() <= e ==> !matches_at(t, j, pat),
    ensures
        last_match_from(t, pat, e, k) == target,
    decreases k - target,
{
    if k > target {
        lemma_last_match_at(t, pat, e, k - 1, target);
    }
}

proof fn lemma_skip_to(flags: Seq<bool>, st: int, m: int, e: int)
    requires
        0 <= st <= m < e <= flags.len(),
        flags[m],
        forall|i: int| st <= i < m ==> !flags[i],
    ensures
        skip_unflagged(flags, st, e) == m,
    decreases m - st,
{
    if st < m {
        lemma_skip_to(flags, st + 1, m, e);
    }
}

/// A title made of a prefix, a workspace name, `" (Workspace)"` and
/// `" - Visual Studio Code"` shows that name, where the name neither starts
/// nor ends with whitespace and starts with an alphanumeric character, and
/// the prefix is an active editor followed by `" - "` (no separator after
/// it) or is all non-alphanumeric with no separator anywhere before the
/// suffix, such as an unsaved-changes bullet.
pub proof fn law_title_round_trip(prefix: Seq<char>, name: Seq<char>, alnum: Seq<bool>)
    requires
        name.len() > 0,
        !is_ws(name[0]),
        !is_ws(name.last()),
        alnum.len() == prefix.len() + name.len() + workspace_tag().len() + vscode_suffix().len(),
        alnum[prefix.len() as int],
        forall|k: int| #[trigger] matches_at(prefix + name, k, editor_separator()) ==> k + 3 <= prefix.len()
            && has_suffix(prefix, editor_separator()),
        !has_suffix(prefix, editor_separator()) ==> forall|i: int| 0 <= i < prefix.len() ==> !#[trigger] alnum[i],
    ensures
        workspace_name_of(prefix + name + workspace_tag() + vscode_suffix(), alnum) == Some(name),
{
    reveal_strlit(" (Workspace)");
    reveal_strlit("(Workspace)");
    reveal_strlit(" - Visual Studio Code");
    reveal_strlit(" - ");
    let pn = prefix + name;
    let t = pn + workspace_tag() + vscode_suffix();
    let n = t.len() as int;
    let e1 = n - vscode_suffix().len();
    assert(vscode_suffix().len() == 21);
    assert(workspace_tag().len() == 12);
    assert(workspace_marker().len() == 11);
    assert(editor_separator().len() == 3);
    assert(t.subrange(e1, n) =~= vscode_suffix());
    assert(has_suffix(t, vscode_suffix()));
    assert(t[e1 - 1] == ')');
    assert(trim_end_index(t, 0, e1) == e1);
    let e2 = e1;
    assert(t.subrange(e2 - 11, e2) =~= workspace_marker());
    assert(matches_at(t, e2 - 11, workspace_marker()));
    assert(t[e2 - 12] == ' ');
    let e3 = pn.len() as int;
    assert(e2 - 12 == e3);
    assert(t[e3 - 1] == name.last());
    assert(trim_end_index(t, 0, e3) == e3);
    assert(trim_end_index(t, 0, e2 - 11) == e3);
    let sep = editor_separator();
    assert forall|j: int| 0 <= j && j + 3 <= e3 implies matches_at(t, j, sep) == matches_at(pn, j, sep) by {
        assert(t.subrange(j, j + 3) =~= pn.subrange(j, j + 3));
    }
    let plen = prefix.len() as int;
    if has_suffix(prefix, sep) {
        assert(pn.subrange(plen - 3, plen) =~= prefix.subrange(plen - 3, plen));
        assert(matches_at(pn, plen - 3, sep));
        assert(matches_at(t, plen - 3, sep));
        lemma_last_match_at(t, sep, e3, e3 - 3, plen - 3);
        assert(last_match(t, sep, e3) == plen - 3);
    } else {
        if e3 - 3 >= -1 {
            lemma_last_match_at(t, sep, e3, e3 - 3, -1);
        }
        assert(last_match(t, sep, e3) == -1);
    }
    let start = if has_suffix(prefix, sep) {
        plen
    } else {
        0
    };
    lemma_skip_to(alnum, start, plen, e3);
    assert(t[plen] == name[0]);
    assert(trim_start_index(t, plen, e3) == plen);
    assert(trim_end_index(t, plen, e3) == e3);
    assert(t.subrange(plen, e3) =~= name);
}

/// A title that does not end with `" - Visual Studio Code"` shows no
/// workspace, nor does one without `"(Workspace)"` before that suffix.
pub proof fn law_only_workspace_windows(t: Seq<char>, alnum: Seq<bool>)
    ensures
        !has_suffix(t, vscode_suffix()) ==> workspace_name_of(t, alnum) is None,
        ({
            let e2 = trim_end_index(t, 0, t.len() - vscode_suffix().len());
            has_suffix(t, vscode_suffix()) && !has_suffix(t.subrange(0, e2), workspace_marker())
                ==> workspace_name_of(t, alnum) is None
        }),
{
    if has_suffix(t, vscode_suffix()) {
        let e1 = t.len() - vscode_suffix().len();
        lemma_trim_end_props(t, 0, e1);
        let e2 = trim_end_index(t, 0, e1);
        let m = workspace_marker().len() as int;
        if e2 >= m && matches_at(t, e2 - m, workspace_marker()) {
            let pre = t.subrange(0, e2);
            assert(pre.subrange(pre.len() - m, pre.len() as int) =~= t.subrange(e2 - m, e2));
        }
    }
}

// ---------------------------------------------------------------------------
// A prefix before a title
// ---------------------------------------------------------------------------

proof fn lemma_trim_end_shift(a: Seq<char>, t: Seq<char>, lo: int, e: int)
    requires
        0 <= lo <= e <= t.len(),
    ensures
        trim_end_index(a + t, a.len() + lo, a.len() + e) == a.len() + trim_end_index(t, lo, e),
    decreases e - lo,
{
    if lo < e {
        assert((a + t)[a.len() + e - 1] == t[e - 1]);
        if is_ws(t[e - 1]) {
            lemma_trim_end_shift(a, t, lo, e - 1);
        }
    }
}

proof fn lemma_trim_start_shift(a: Seq<char>, t: Seq<char>, s: int, e: int)
    requires
        0 <= s <= e <= t.len(),
    ensures
        trim_start_index(a + t, a.len() + s, a.len() + e) == a.len() + trim_start_index(t, s, e),
    decreases e - s,
{
    if s < e {
        assert((a + t)[a.len() + s] == t[s]);
        if is_ws(t[s]) {
            lemma_trim_start_shift(a, t, s + 1, e);
        }
    }
}

proof fn lemma_skip_shift(fa: Seq<bool>, ft: Seq<bool>, s: int, e: int)
    requires
        0 <= s <= e <= ft.len(),
    ensures
        skip_unflagged(fa + ft, fa.len() + s, fa.len() + e) == fa.len() + skip_unflagged(ft, s, e),
    decreases e - s,
{
    if s < e {
        assert((fa + ft)[fa.len() + s] == ft[s]);
        if !ft[s] {
            lemma_skip_shift(fa, ft, s + 1, e);
        }
    }
}

proof fn lemma_skip_over_unflagged(f: Seq<bool>, s: int, s2: int, e: int)
    requires
        0 <= s <= s2 <= e <= f.len(),
        forall|i: int| s <= i < s2 ==> !#[trigger] f[i],
    ensures
        skip_unflagged(f, s, e) == skip_unflagged(f, s2, e),
    decreases s2 - s,
{
    if s < s2 {
        lemma_skip_over_unflagged(f, s + 1, s2, e);
    }
}

proof fn lemma_matches_shift(a: Seq<char>, t: Seq<char>, k: int, pat: Seq<char>)
    requires
        0 <= k,
    ensures
        matches_at(a + t, a.len() + k, pat) == matches_at(t, k, pat),
{
    if k + pat.len() <= t.len() {
        assert((a + t).subrange(a.len() + k, a.len() + k + pat.len()) =~= t.subrange(k, k + pat.len()));
    }
}

/// Trimming stops at the same place whatever the lower bound, as long as
/// it stops above both bounds.
proof fn lemma_trim_end_floor(t: Seq<char>, lo: int, m: int, e: int)
    requires
        0 <= lo <= m <= e <= t.len(),
        trim_end_index(t, lo, e) > m || trim_end_index(t, m, e) > m,
    ensures
        trim_end_index(t, lo, e) == trim_end_index(t, m, e),
    decreases e - m,
{
    lemma_trim_end_props(t, lo, e);
    if m < e && is_ws(t[e - 1]) {
        lemma_trim_end_floor(t, lo, m, e - 1);
    }
}

proof fn lemma_last_from_unbounded(t: Seq<char>, pat: Seq<char>, e: int, k0: int, k: int)
    requires
        k0 <= k,
        k0 + pat.len() >= e,
    ensures
        last_match_from(t, pat, e, k) == last_match_from(t, pat, e, k0),
    decreases k - k0,
{
    if k > k0 && k >= 0 {
        lemma_last_from_unbounded(t, pat, e, k0, k - 1);
    }
}

proof fn lemma_last_shift(a: Seq<char>, t: Seq<char>, pat: Seq<char>, e: int, k: int)
    requires
        -1 <= k,
        0 <= e <= t.len(),
    ensures
        last_match_from(t, pat, e, k) >= 0 ==> last_match_from(a + t, pat, a.len() + e, a.len() + k) == a.len()
            + last_match_from(t, pat, e, k),
        last_match_from(t, pat, e, k) < 0 ==> last_match_from(a + t, pat, a.len() + e, a.len() + k)
            == last_match_from(a + t, pat, a.len() + e, a.len() - 1),
    decreases k + 1,
{
    if k >= 0 {
        lemma_matches_shift(a, t, k, pat);
        if !(k + pat.len() <= e && matches_at(t, k, pat)) {
            lemma_last_shift(a, t, pat, e, k - 1);
        }
    }
}

proof fn lemma_last_match_found(t: Seq<char>, pat: Seq<char>, e: int, k: int)
    ensures
        last_match_from(t, pat, e, k) >= 0 ==> matches_at(t, last_match_from(t, pat, e, k), pat),
    decreases k + 1,
{
    if k >= 0 && !(k + pat.len() <= e && matches_at(t, k, pat)) {
        lemma_last_match_found(t, pat, e, k - 1);
    }
}

/// The end of the part of title `t` before `"(Workspace)"`, whitespace dropped.
pub open spec fn title_name_end(t: Seq<char>) -> int {
    let e2 = trim_end_index(t, 0, t.len() - vscode_suffix().len());
    trim_end_index(t, 0, e2 - workspace_marker().len())
}

/// Title `t` has the frame of a workspace title: the VSCode suffix, the
/// workspace marker before it, and something before that.
pub open spec fn title_frame(t: Seq<char>) -> bool {
    let e2 = trim_end_index(t, 0, t.len() - vscode_suffix().len());
    &&& has_suffix(t, vscode_suffix())
    &&& e2 >= workspace_marker().len()
    &&& matches_at(t, e2 - workspace_marker().len(), workspace_marker())
    &&& title_name_end(t) > 0
}

proof fn lemma_name_end_bound(t: Seq<char>)
    requires
        title_frame(t),
    ensures
        0 < title_name_end(t) <= t.len(),
{
    reveal_strlit("(Workspace)");
    reveal_strlit(" - Visual Studio Code");
    let e1 = t.len() - vscode_suffix().len();
    lemma_trim_end_props(t, 0, e1);
    let e2 = trim_end_index(t, 0, e1);
    lemma_trim_end_props(t, 0, e2 - workspace_marker().len());
}

proof fn lemma_name_has_frame(t: Seq<char>, alnum: Seq<bool>)
    requires
        alnum.len() == t.len(),
        workspace_name_of(t, alnum) is Some,
    ensures
        title_frame(t),
{
    reveal_strlit("(Workspace)");
    reveal_strlit(" - Visual Studio Code");
    reveal_strlit(" - ");
    let n = t.len() as int;
    let e1 = n - vscode_suffix().len();
    let e2 = trim_end_index(t, 0, e1);
    let m = workspace_marker().len() as int;
    lemma_trim_end_props(t, 0, e1);
    let e3 = trim_end_index(t, 0, e2 - m);
    lemma_trim_end_props(t, 0, e2 - m);
    let k = last_match(t, editor_separator(), e3);
    lemma_last_match_props(t, editor_separator(), e3, e3 - editor_separator().len());
    let start = if k >= 0 {
        k + editor_separator().len()
    } else {
        0
    };
    let a = skip_unflagged(alnum, start, e3);
    lemma_skip_props(alnum, start, e3);
    let b = trim_start_index(t, a, e3);
    lemma_trim_start_props(t, a, e3);
    lemma_trim_end_props(t, b, e3);
}

/// The name that a title shows is not changed by a prefix `a` (with flags
/// `fa`) before it, where the title has the frame of a workspace title and
/// the prefix leaves the name's start alone: what the search for the last
/// `" - "` finds in the prefix (or straddling into the title) lets the
/// name start at the same flagged character.
proof fn lemma_name_after_prefix(a: Seq<char>, fa: Seq<bool>, t: Seq<char>, ft: Seq<bool>)
    requires
        fa.len() == a.len(),
        ft.len() == t.len(),
        title_frame(t),
        ({
            let r = last_match_from(a + t, editor_separator(), a.len() + title_name_end(t), a.len() - 1);
            let st = if r >= 0 {
                r + 3
            } else {
                0
            };
            &&& forall|i: int| st <= i < a.len() ==> !#[trigger] fa[i]
            &&& forall|i: int| 0 <= i < st - a.len() ==> !#[trigger] ft[i]
        }),
    ensures
        workspace_name_of(a + t, fa + ft) == workspace_name_of(t, ft),
{
    reveal_strlit("(Workspace)");
    reveal_strlit(" - Visual Studio Code");
    reveal_strlit(" - ");
    let l = a.len() as int;
    let tp = a + t;
    let fp = fa + ft;
    let n = t.len() as int;
    let sx = vscode_suffix();
    let mk = workspace_marker();
    let sep = editor_separator();
    assert(sx.len() == 21 && mk.len() == 11 && sep.len() == 3);
    let e1 = n - 21;
    lemma_matches_shift(a, t, e1, sx);
    assert(has_suffix(tp, sx));
    let e2 = trim_end_index(t, 0, e1);
    lemma_trim_end_props(t, 0, e1);
    lemma_trim_end_shift(a, t, 0, e1);
    lemma_trim_end_floor(tp, 0, l, l + e1);
    assert(trim_end_index(tp, 0, l + e1) == l + e2);
    lemma_matches_shift(a, t, e2 - 11, mk);
    let e3 = trim_end_index(t, 0, e2 - 11);
    lemma_trim_end_props(t, 0, e2 - 11);
    lemma_trim_end_shift(a, t, 0, e2 - 11);
    lemma_trim_end_floor(tp, 0, l, l + e2 - 11);
    assert(trim_end_index(tp, 0, l + e2 - 11) == l + e3);
    assert(e3 == title_name_end(t));
    let kt = last_match(t, sep, e3);
    let kp = last_match(tp, sep, l + e3);
    let r = last_match_from(tp, sep, l + e3, l - 1);
    if e3 - 3 >= -1 {
        lemma_last_shift(a, t, sep, e3, e3 - 3);
    } else {
        lemma_last_from_unbounded(tp, sep, l + e3, l + e3 - 3, l - 1);
    }
    lemma_last_match_props(t, sep, e3, e3 - 3);
    lemma_last_match_props(tp, sep, l + e3, l - 1);
    let st = if r >= 0 {
        r + 3
    } else {
        0
    };
    let start_t = if kt >= 0 {
        kt + 3
    } else {
        0
    };
    let start_p = if kp >= 0 {
        kp + 3
    } else {
        0
    };
    let at = skip_unflagged(ft, start_t, e3);
    lemma_skip_props(ft, start_t, e3);
    if kt >= 0 {
        assert(start_p == l + start_t);
        lemma_skip_shift(fa, ft, start_t, e3);
    } else {
        assert(start_p == st);
        lemma_skip_shift(fa, ft, 0, e3);
        if st <= l {
            assert forall|i: int| st <= i < l implies !#[trigger] fp[i] by {
                assert(fp[i] == fa[i]);
            }
            lemma_skip_over_unflagged(fp, st, l, l + e3);
        } else {
            assert forall|i: int| l <= i < st implies !#[trigger] fp[i] by {
                assert(fp[i] == ft[i - l]);
            }
            lemma_skip_over_unflagged(fp, l, st, l + e3);
        }
    }
    assert(skip_unflagged(fp, start_p, l + e3) == l + at);
    let bt = trim_start_index(t, at, e3);
    lemma_trim_start_props(t, at, e3);
    lemma_trim_start_shift(a, t, at, e3);
    let ct = trim_end_index(t, bt, e3);
    lemma_trim_end_props(t, bt, e3);
    lemma_trim_end_shift(a, t, bt, e3);
    assert(tp.subrange(l + bt, l + ct) =~= t.subrange(bt, ct));
}

/// A title shown under a prefix `b` whose flags are all unset has a frame
/// of its own in the part after `b`, if it shows a name at all.
proof fn lemma_frame_under_unflagged(b: Seq<char>, fb: Seq<bool>, t: Seq<char>, ft: Seq<bool>)
    requires
        fb.len() == b.len(),
        ft.len() == t.len(),
        forall|i: int| 0 <= i < fb.len() ==> !#[trigger] fb[i],
        workspace_name_of(b + t, fb + ft) is Some,
    ensures
        title_frame(t),
{
    reveal_strlit("(Workspace)");
    reveal_strlit(" - Visual Studio Code");
    reveal_strlit(" - ");
    let l = b.len() as int;
    let tp = b + t;
    let fp = fb + ft;
    let np = tp.len() as int;
    let sx = vscode_suffix();
    let mk = workspace_marker();
    let sep = editor_separator();
    assert(sx.len() == 21 && mk.len() == 11 && sep.len() == 3);
    let e1 = np - 21;
    let e2 = trim_end_index(tp, 0, e1);
    lemma_trim_end_props(tp, 0, e1);
    let e3 = trim_end_index(tp, 0, e2 - 11);
    lemma_trim_end_props(tp, 0, e2 - 11);
    let k = last_match(tp, sep, e3);
    lemma_last_match_props(tp, sep, e3, e3 - 3);
    let start = if k >= 0 {
        k + 3
    } else {
        0
    };
    let ap = skip_unflagged(fp, start, e3);
    lemma_skip_props(fp, start, e3);
    let bp = trim_start_index(tp, ap, e3);
    lemma_trim_start_props(tp, ap, e3);
    lemma_trim_end_props(tp, bp, e3);
    assert(ap < e3);
    assert(ap >= l) by {
        if ap < l {
            assert(fp[ap] == fb[ap]);
        }
    }
    let n = t.len() as int;
    assert(n >= 22);
    lemma_matches_shift(b, t, n - 21, sx);
    assert(has_suffix(t, sx));
    lemma_trim_end_floor(tp, 0, l, e1);
    lemma_trim_end_shift(b, t, 0, n - 21);
    let e2t = trim_end_index(t, 0, n - 21);
    assert(e2 == l + e2t);
    lemma_matches_shift(b, t, e2t - 11, mk);
    lemma_trim_end_floor(tp, 0, l, e2 - 11);
    lemma_trim_end_shift(b, t, 0, e2t - 11);
    assert(title_name_end(t) == e3 - l);
}

/// A prefix of characters that are not alphanumeric, such as the bullet
/// `"\u{25cf} "` that marks unsaved changes, never changes the workspace
/// name read from a title. The flags say which characters are alphanumeric;
/// like `char::is_alphanumeric`, they must not mark a space or a hyphen of
/// the title (`extract_workspace_name_from_title` states this of the flags
/// it reads).
pub proof fn law_unflagged_prefix_keeps_name(b: Seq<char>, fb: Seq<bool>, t: Seq<char>, ft: Seq<bool>)
    requires
        fb.len() == b.len(),
        ft.len() == t.len(),
        forall|i: int| 0 <= i < fb.len() ==> !#[trigger] fb[i],
        forall|i: int| 0 <= i < t.len() && (t[i] == ' ' || t[i] == '-') ==> !#[trigger] ft[i],
    ensures
        workspace_name_of(b + t, fb + ft) == workspace_name_of(t, ft),
{
    reveal_strlit(" - ");
    if workspace_name_of(t, ft) is Some {
        lemma_name_has_frame(t, ft);
    } else if workspace_name_of(b + t, fb + ft) is Some {
        lemma_frame_under_unflagged(b, fb, t, ft);
    }
    if title_frame(t) {
        lemma_name_end_bound(t);
        let l = b.len() as int;
        let tp = b + t;
        let sep = editor_separator();
        let e3 = l + title_name_end(t);
        let r = last_match_from(tp, sep, e3, l - 1);
        lemma_last_match_props(tp, sep, e3, l - 1);
        lemma_last_match_found(tp, sep, e3, l - 1);
        if r >= 0 && r + 3 > l {
            assert forall|i: int| 0 <= i < r + 3 - l implies !#[trigger] ft[i] by {
                assert(tp.subrange(r, r + 3) == sep);
                assert(tp[l + i] == tp.subrange(r, r + 3)[l + i - r]);
                assert(tp[l + i] == t[i]);
            }
        }
        lemma_name_after_prefix(b, fb, t, ft);
    }
}

/// An active editor shown before the workspace name, as in
/// `"file.md - personal (Workspace) - Visual Studio Code"`, never changes
/// the name read from a title that shows one: whatever `e` and its flags,
/// `e + " - " + t` shows the name that `t` shows. Like
/// `char::is_alphanumeric`, the flags must not mark a space or a hyphen of
/// `t` (`extract_workspace_name_from_title` states this of the flags it
/// reads).
pub proof fn law_editor_prefix_keeps_name(e: Seq<char>, fe: Seq<bool>, t: Seq<char>, ft: Seq<bool>)
    requires
        fe.len() == e.len() + 3,
        ft.len() == t.len(),
        forall|i: int| 0 <= i < t.len() && (t[i] == ' ' || t[i] == '-') ==> !#[trigger] ft[i],
        workspace_name_of(t, ft) is Some,
    ensures
        workspace_name_of(e + editor_separator() + t, fe + ft) == workspace_name_of(t, ft),
{
    reveal_strlit(" - ");
    lemma_name_has_frame(t, ft);
    lemma_name_end_bound(t);
    let a = e + editor_separator();
    let l = a.len() as int;
    assert(l == e.len() + 3);
    let tp = a + t;
    let sep = editor_separator();
    let e3 = l + title_name_end(t);
    assert(title_name_end(t) >= 1);
    assert(tp.subrange(l - 3, l) =~= sep);
    assert(matches_at(tp, l - 3, sep));
    assert(!matches_at(tp, l - 2, sep)) by {
        assert(tp[l - 2] == '-');
        if matches_at(tp, l - 2, sep) {
            assert(tp.subrange(l - 2, l + 1)[0] == sep[0]);
        }
    }
    let r = last_match_from(tp, sep, e3, l - 1);
    if matches_at(tp, l - 1, sep) && l + 2 <= e3 {
        assert(r == l - 1);
        assert forall|i: int| 0 <= i < 2 implies !#[trigger] ft[i] by {
            assert(tp.subrange(l - 1, l + 2)[1 + i] == sep[1 + i]);
            assert(tp[l + i] == t[i]);
        }
    } else {
        assert(last_match_from(tp, sep, e3, l - 3) == l - 3);
        assert(last_match_from(tp, sep, e3, l - 2) == l - 3);
        assert(r == l - 3);
    }
    assert(e + editor_separator() + t == tp);
    lemma_name_after_prefix(a, fe, t, ft);
}

} // verus!
