//! The `.code-workspace` files of a folder, with their display names and
//! the icons that sit next to them, sorted case-insensitively.
use vstd::prelude::*;

use crate::launcher::{
    ask_is_file, ask_is_file_in_order, asked_until_found, first_flagged, first_found, is_file_answer,
    is_relative_name, join_path, joined_path, lemma_first_flagged_from, lemma_search_none,
    law_search_gives_first_existing, search_outcome, string_views,
};
use crate::path_identity::{path_parent, path_parent_exec};
use crate::platform::Platform;
use crate::running::{has_drive_prefix, is_path_separator, workspace_ext};
use crate::text::{chars_of, ends_with, has_suffix, opt_view, string_chars, string_of, subvec};

verus! {

/// One workspace file of the scanned folder.
#[derive(Debug, Clone, PartialEq, Eq)]
pub struct WorkspaceEntry {
    pub path: String,
    pub display_name: String,
    pub auto_icon: Option<String>,
}

/// One entry of the scanned folder: its path and, where it is valid
/// Unicode, its file name.
#[derive(Debug, Clone)]
pub struct DirEntryInfo {
    pub path: String,
    pub file_name: Option<String>,
}

/// A bare file name on `platform`: no separator in it and, on Windows, no
/// drive in front.
pub open spec fn is_bare_file_name(name: Seq<char>, platform: Platform) -> bool {
    &&& forall|i: int| 0 <= i < name.len() ==> !is_path_separator(#[trigger] name[i], platform)
    &&& !(platform == Platform::Windows && has_drive_prefix(name))
}

/// The stem of a workspace file name: the name without its
/// `.code-workspace` extension, where it has that extension and is more
/// than it (as `Path::extension` and `Path::file_stem` split a name).
pub open spec fn workspace_stem(name: Seq<char>) -> Option<Seq<char>> {
    if has_suffix(name, workspace_ext()) && name.len() > workspace_ext().len() {
        Some(name.subrange(0, name.len() - workspace_ext().len()))
    } else {
        None
    }
}

/// The icon extensions tried next to a workspace file, in order.
pub open spec fn icon_exts() -> Seq<Seq<char>> {
    seq!["png"@, "svg"@, "jpg"@, "jpeg"@]
}

/// The icon files tried for a workspace with stem `stem` in folder `dir`.
pub open spec fn icon_candidates(dir: Seq<char>, stem: Seq<char>, platform: Platform) -> Seq<Seq<char>> {
    icon_exts().map_values(|e: Seq<char>| joined_path(dir, stem + "."@ + e, platform))
}

/// `icon` is one of the icon files tried for a workspace with stem `stem`
/// whose file is at `path`: next to it, in the parent of `path`.
pub open spec fn sibling_icon_of(path: Seq<char>, stem: Seq<char>, icon: Seq<char>, platform: Platform) -> bool {
    match path_parent(path, platform) {
        Some(dir) => icon_candidates(dir, stem, platform).contains(icon),
        None => false,
    }
}

/// `e` is a workspace file entry made from folder entry `d`: same path,
/// the stem of the file name as display name, no icon or one of the icon
/// files tried next to it.
pub open spec fn entry_from(e: WorkspaceEntry, d: DirEntryInfo, platform: Platform) -> bool {
    match d.file_name {
        Some(n) => match workspace_stem(n@) {
            Some(stem) => {
                &&& e.path@ == d.path@
                &&& e.display_name@ == stem
                &&& match e.auto_icon {
                    Some(icon) => sibling_icon_of(d.path@, stem, icon@, platform),
                    None => true,
                }
            },
            None => false,
        },
        None => false,
    }
}

/// Entry `k` of `r` is made of folder entry `src[k]` of `ds`, and the
/// indices in `src` ascend.
pub open spec fn collected_via(
    r: Seq<WorkspaceEntry>,
    ds: Seq<DirEntryInfo>,
    platform: Platform,
    src: Seq<int>,
) -> bool {
    &&& src.len() == r.len()
    &&& forall|k: int| 0 <= k < src.len() ==> 0 <= #[trigger] src[k] < ds.len()
    &&& forall|k: int, l: int| 0 <= k < l < src.len() ==> #[trigger] src[k] < #[trigger] src[l]
    &&& forall|k: int| 0 <= k < r.len() ==> entry_from(#[trigger] r[k], ds[src[k]], platform)
}

/// `r` is made of folder entries `ds`, in their order, each at most once.
pub open spec fn collected_from(r: Seq<WorkspaceEntry>, ds: Seq<DirEntryInfo>, platform: Platform) -> bool {
    exists|src: Seq<int>| #[trigger] collected_via(r, ds, platform, src)
}

/// Lexicographic order of texts by code point, the order of `str::cmp`.
pub open spec fn text_le(a: Seq<char>, b: Seq<char>) -> bool
    decreases a.len(),
{
    if a.len() == 0 {
        true
    } else if b.len() == 0 {
        false
    } else if a[0] != b[0] {
        (a[0] as int) < (b[0] as int)
    } else {
        text_le(a.drop_first(), b.drop_first())
    }
}

/// `idx` lists `0..n` in some order.
pub open spec fn is_permutation(idx: Seq<int>, n: int) -> bool {
    &&& idx.len() == n
    &&& forall|k: int| 0 <= k < idx.len() ==> 0 <= #[trigger] idx[k] < n
    &&& forall|k: int, l: int| 0 <= k < l < idx.len() ==> #[trigger] idx[k] != #[trigger] idx[l]
}

/// `idx` orders `keys` ascending, and equal keys keep their input
/// order: the order that a stable sort gives.
pub open spec fn stably_ordered(idx: Seq<int>, keys: Seq<Seq<char>>) -> bool {
    &&& forall|k: int, l: int|
        0 <= k < l < idx.len() ==> text_le(keys[#[trigger] idx[k]], keys[#[trigger] idx[l]])
    &&& forall|k: int, l: int|
        0 <= k < l < idx.len() && keys[idx[k]] == keys[idx[l]] ==> #[trigger] idx[k] < #[trigger] idx[l]
}

/// `r` is `v` stably sorted by `keys` (one key per element of `v`).
pub open spec fn stably_sorted<T>(r: Seq<T>, v: Seq<T>, keys: Seq<Seq<char>>) -> bool {
    &&& r.len() == v.len()
    &&& keys.len() == v.len()
    &&& exists|idx: Seq<int>|
        {
            &&& is_permutation(idx, v.len() as int)
            &&& stably_ordered(idx, keys)
            &&& forall|k: int| 0 <= k < r.len() ==> #[trigger] r[k] == v[idx[k]]
        }
}

/// Names what `str::to_lowercase` makes of a text: its Unicode lower case.
pub uninterp spec fn lowercase(s: Seq<char>) -> Seq<char>;

/// Calls `str::to_lowercase`. Its result is named by `lowercase`.
#[verifier::external_body]
fn to_lowercase(s: &str) -> (r: String)
    ensures
        r@ == lowercase(s@),
{
    s.to_lowercase()
}

/// The sort keys of workspace entries: their lower-cased display names.
pub open spec fn entry_keys(v: Seq<WorkspaceEntry>) -> Seq<Seq<char>> {
    v.map_values(|e: WorkspaceEntry| lowercase(e.display_name@))
}

/// The order of texts is total.
pub proof fn law_text_order_total(a: Seq<char>, b: Seq<char>)
    ensures
        text_le(a, b) || text_le(b, a),
    decreases a.len(),
{
    if a.len() > 0 && b.len() > 0 && a[0] == b[0] {
        law_text_order_total(a.drop_first(), b.drop_first());
    }
}

/// Texts that are each at most the other are equal.
pub proof fn law_text_order_antisymmetric(a: Seq<char>, b: Seq<char>)
    requires
        text_le(a, b),
        text_le(b, a),
    ensures
        a == b,
    decreases a.len(),
{
    if a.len() > 0 && b.len() > 0 {
        if a[0] == b[0] {
            law_text_order_antisymmetric(a.drop_first(), b.drop_first());
            assert(a =~= seq![a[0]] + a.drop_first());
            assert(b =~= seq![b[0]] + b.drop_first());
        }
    } else {
        assert(a =~= b);
    }
}

/// The order of texts is transitive.
pub proof fn law_text_order_transitive(a: Seq<char>, b: Seq<char>, c: Seq<char>)
    requires
        text_le(a, b),
        text_le(b, c),
    ensures
        text_le(a, c),
    decreases a.len(),
{
    if a.len() > 0 && b.len() > 0 && c.len() > 0 {
        if a[0] == b[0] && b[0] == c[0] {
            law_text_order_transitive(a.drop_first(), b.drop_first(), c.drop_first());
        }
    }
}

/// Whether `a <= b` in the order of `str::cmp`.
fn text_le_exec(a: &Vec<char>, b: &Vec<char>) -> (r: bool)
    ensures
        r == text_le(a@, b@),
{
    let mut i: usize = 0;
    assert(a@.subrange(0, a@.len() as int) =~= a@);
    assert(b@.subrange(0, b@.len() as int) =~= b@);
    while i < a.len() && i < b.len() && a[i] == b[i]
        invariant
            i <= a@.len(),
            i <= b@.len(),
            text_le(a@, b@) == text_le(a@.subrange(i as int, a@.len() as int), b@.subrange(i as int, b@.len() as int)),
        decreases a@.len() - i,
    {
        assert(a@.subrange(i as int, a@.len() as int).drop_first() =~= a@.subrange(i + 1, a@.len() as int));
        assert(b@.subrange(i as int, b@.len() as int).drop_first() =~= b@.subrange(i + 1, b@.len() as int));
        i += 1;
    }
    if i == a.len() {
        true
    } else if i == b.len() {
        false
    } else {
        assert(a@.subrange(i as int, a@.len() as int)[0] == a@[i as int]);
        assert(b@.subrange(i as int, b@.len() as int)[0] == b@[i as int]);
        a[i] < b[i]
    }
}

/// The positions `0..keys.len()` in the order of a stable sort by `keys`.
fn stable_order(keys: &Vec<Vec<char>>) -> (r: Vec<usize>)
    ensures
        is_permutation(r@.map_values(|i: usize| i as int), keys@.len() as int),
        stably_ordered(r@.map_values(|i: usize| i as int), keys@.map_values(|k: Vec<char>| k@)),
{
    let ghost kv = keys@.map_values(|k: Vec<char>| k@);
    let mut idx: Vec<usize> = Vec::new();
    let mut i: usize = 0;
    while i < keys.len()
        invariant
            i <= keys@.len(),
            kv == keys@.map_values(|k: Vec<char>| k@),
            is_permutation(idx@.map_values(|x: usize| x as int), i as int),
            stably_ordered(idx@.map_values(|x: usize| x as int), kv),
        decreases keys@.len() - i,
    {
        let ghost old_idx = idx@.map_values(|x: usize| x as int);
        assert forall|k: int| 0 <= k < idx@.len() implies (#[trigger] idx@[k] as int) < i by {
            assert(old_idx[k] == idx@[k] as int);
        }
        let mut p: usize = 0;
        while p < idx.len() && text_le_exec(&keys[idx[p]], &keys[i])
            invariant
                p <= idx@.len(),
                i < keys@.len(),
                kv == keys@.map_values(|k: Vec<char>| k@),
                old_idx == idx@.map_values(|x: usize| x as int),
                is_permutation(old_idx, i as int),
                forall|k: int| 0 <= k < idx@.len() ==> (#[trigger] idx@[k] as int) < i,
                forall|k: int| 0 <= k < p ==> text_le(kv[#[trigger] old_idx[k]], kv[i as int]),
            decreases idx@.len() - p,
        {
            assert(old_idx[p as int] == idx@[p as int] as int);
            p += 1;
        }
        proof {
            if p < idx@.len() {
                assert(old_idx[p as int] == idx@[p as int] as int);
                assert(!text_le(kv[old_idx[p as int]], kv[i as int]));
            }
        }
        idx.insert(p, i);
        let ghost new_idx = idx@.map_values(|x: usize| x as int);
        proof {
            assert(new_idx =~= old_idx.insert(p as int, i as int));
            assert forall|k: int| 0 <= k < new_idx.len() implies 0 <= #[trigger] new_idx[k] < i + 1 by {
                if k < p {
                    assert(new_idx[k] == old_idx[k]);
                } else if k > p {
                    assert(new_idx[k] == old_idx[k - 1]);
                }
            }
            assert forall|k: int, l: int| 0 <= k < l < new_idx.len() implies #[trigger] new_idx[k]
                != #[trigger] new_idx[l] by {
                if k != p && l != p {
                    let k0 = if k < p { k } else { k - 1 };
                    let l0 = if l < p { l } else { l - 1 };
                    assert(new_idx[k] == old_idx[k0]);
                    assert(new_idx[l] == old_idx[l0]);
                } else if k == p {
                    assert(new_idx[l] == old_idx[l - 1]);
                } else {
                    assert(new_idx[k] == old_idx[k]);
                }
            }
            assert forall|k: int, l: int| 0 <= k < l < new_idx.len() implies text_le(
                kv[#[trigger] new_idx[k]],
                kv[#[trigger] new_idx[l]],
            ) by {
                if k != p && l != p {
                    let k0 = if k < p { k } else { k - 1 };
                    let l0 = if l < p { l } else { l - 1 };
                    assert(new_idx[k] == old_idx[k0]);
                    assert(new_idx[l] == old_idx[l0]);
                } else if k == p {
                    assert(new_idx[l] == old_idx[l - 1]);
                    let first = old_idx[p as int];
                    assert(p < old_idx.len());
                    assert(!text_le(kv[first], kv[i as int]));
                    law_text_order_total(kv[first], kv[i as int]);
                    if l - 1 > p {
                        assert(text_le(kv[old_idx[p as int]], kv[old_idx[l - 1]]));
                        law_text_order_transitive(kv[i as int], kv[first], kv[old_idx[l - 1]]);
                    }
                } else {
                    assert(new_idx[k] == old_idx[k]);
                }
            }
            assert forall|k: int, l: int|
                0 <= k < l < new_idx.len() && kv[new_idx[k]] == kv[new_idx[l]] implies #[trigger] new_idx[k]
                < #[trigger] new_idx[l] by {
                if k != p && l != p {
                    let k0 = if k < p { k } else { k - 1 };
                    let l0 = if l < p { l } else { l - 1 };
                    assert(new_idx[k] == old_idx[k0]);
                    assert(new_idx[l] == old_idx[l0]);
                } else if k == p {
                    assert(new_idx[l] == old_idx[l - 1]);
                    let first = old_idx[p as int];
                    assert(!text_le(kv[first], kv[i as int]));
                    if l - 1 > p {
                        assert(text_le(kv[old_idx[p as int]], kv[old_idx[l - 1]]));
                        law_text_order_transitive(kv[first], kv[old_idx[l - 1]], kv[i as int]);
                    }
                } else {
                    assert(new_idx[k] == old_idx[k]);
                    assert(old_idx[k] < i);
                }
            }
        }
        i += 1;
    }
    idx
}

/// A copy of a workspace entry.
fn copy_entry(e: &WorkspaceEntry) -> (r: WorkspaceEntry)
    ensures
        r == *e,
{
    WorkspaceEntry {
        path: e.path.clone(),
        display_name: e.display_name.clone(),
        auto_icon: match &e.auto_icon {
            Some(i) => Some(i.clone()),
            None => None,
        },
    }
}

/// The entries stably sorted by their keys `keys` (one per entry).
pub fn sort_by_keys(entries: Vec<WorkspaceEntry>, keys: &Vec<String>) -> (r: Vec<WorkspaceEntry>)
    requires
        keys@.len() == entries@.len(),
    ensures
        stably_sorted(r@, entries@, keys@.map_values(|k: String| k@)),
{
    let mut kcs: Vec<Vec<char>> = Vec::new();
    let mut j: usize = 0;
    while j < keys.len()
        invariant
            j <= keys@.len(),
            kcs@.map_values(|k: Vec<char>| k@) == keys@.map_values(|k: String| k@).subrange(0, j as int),
        decreases keys@.len() - j,
    {
        let ghost prev = kcs@;
        let kc = string_chars(&keys[j]);
        kcs.push(kc);
        assert(kcs@ == prev.push(kc));
        assert(kcs@.map_values(|k: Vec<char>| k@) =~= prev.map_values(|k: Vec<char>| k@).push(kc@));
        assert(keys@.map_values(|k: String| k@).subrange(0, j + 1) =~= keys@.map_values(|k: String| k@).subrange(0, j as int).push(keys@[j as int]@));
        j += 1;
    }
    assert(keys@.map_values(|k: String| k@).subrange(0, keys@.len() as int) =~= keys@.map_values(|k: String| k@));
    let idx = stable_order(&kcs);
    let ghost iv = idx@.map_values(|x: usize| x as int);
    let mut out: Vec<WorkspaceEntry> = Vec::new();
    let mut k: usize = 0;
    while k < idx.len()
        invariant
            k <= idx@.len(),
            iv == idx@.map_values(|x: usize| x as int),
            is_permutation(iv, entries@.len() as int),
            out@.len() == k,
            forall|m: int| 0 <= m < k ==> #[trigger] out@[m] == entries@[iv[m]],
        decreases idx@.len() - k,
    {
        assert(iv[k as int] == idx@[k as int] as int);
        assert(iv[k as int] < entries@.len());
        let e = copy_entry(&entries[idx[k]]);
        out.push(e);
        k += 1;
    }
    assert(is_permutation(iv, entries@.len() as int) && stably_ordered(iv, keys@.map_values(|k: String| k@)) && forall|m: int| 0 <= m < out@.len() ==> #[trigger] out@[m] == entries@[iv[m]]);
    out
}


/// The icon files tried for a workspace with stem `stem` in folder `dir`,
/// in order: `dir/stem.png`, `.svg`, `.jpg`, `.jpeg`.
pub fn icon_candidate_paths(dir: &String, stem: &String, platform: Platform) -> (r: Vec<String>)
    requires
        is_bare_file_name(stem@, platform),
    ensures
        string_views(r@) == icon_candidates(dir@, stem@, platform),
{
    let exts: Vec<&str> = vec!["png", "svg", "jpg", "jpeg"];
    let ghost cands = icon_candidates(dir@, stem@, platform);
    proof {
        reveal_strlit("png");
        reveal_strlit("svg");
        reveal_strlit("jpg");
        reveal_strlit("jpeg");
        reveal_strlit(".");
        assert(exts@.map_values(|e: &str| e@) =~= icon_exts());
    }
    let mut out: Vec<String> = Vec::new();
    let mut i: usize = 0;
    while i < exts.len()
        invariant
            i <= exts@.len(),
            exts@.len() == 4,
            exts@.map_values(|e: &str| e@) == icon_exts(),
            cands == icon_candidates(dir@, stem@, platform),
            is_bare_file_name(stem@, platform),
            string_views(out@) == cands.subrange(0, i as int),
        decreases exts@.len() - i,
    {
        let mut name = string_chars(stem);
        name.push('.');
        let ext = chars_of(exts[i]);
        let ghost mid = name@;
        let mut j: usize = 0;
        while j < ext.len()
            invariant
                j <= ext@.len(),
                name@ == mid + ext@.subrange(0, j as int),
            decreases ext@.len() - j,
        {
            name.push(ext[j]);
            j += 1;
            assert(name@ =~= mid + ext@.subrange(0, j as int));
        }
        assert(ext@.subrange(0, ext@.len() as int) =~= ext@);
        let ghost e = icon_exts()[i as int];
        assert(exts@.map_values(|e: &str| e@)[i as int] == exts@[i as int]@);
        proof {
            reveal_strlit(".");
            assert(ext@ == e);
            assert("."@ =~= seq!['.']);
        }
        assert(name@ =~= stem@ + "."@ + e);
        proof {
            let n = name@;
            assert(n.len() > 0);
            if stem@.len() > 0 {
                assert(n[0] == stem@[0]);
            } else {
                assert(n[0] == '.');
            }
            if stem@.len() >= 2 {
                assert(n[0] == stem@[0] && n[1] == stem@[1]);
            } else if stem@.len() == 1 {
                assert(n[1] == '.');
            }
        }
        let name_s = string_of(&name);
        let candidate = join_path(dir, &name_s, platform);
        assert(candidate@ == cands[i as int]);
        let ghost prev = string_views(out@);
        out.push(candidate);
        assert(string_views(out@) =~= prev.push(cands[i as int]));
        assert(cands.subrange(0, i + 1) =~= cands.subrange(0, i as int).push(cands[i as int]));
        i += 1;
    }
    assert(cands.len() == 4);
    assert(cands.subrange(0, 4) =~= cands);
    out
}

/// The icon file next to a workspace: asks `Path::is_file` about
/// `dir/stem.png`, `.svg`, `.jpg`, `.jpeg` in order, stopping at the first
/// that is a file, and gives that one, or none. Which of them are files is
/// up to the disk; the contract says the result is the first of them that
/// `Path::is_file` answered `true` for, every earlier one having been asked
/// and answered `false`.
pub fn find_sibling_icon(dir: &String, stem: &String, platform: Platform) -> (r: Option<String>)
    requires
        is_bare_file_name(stem@, platform),
    ensures
        match r {
            Some(icon) => icon_candidates(dir@, stem@, platform).contains(icon@),
            None => true,
        },
        search_outcome(icon_candidates(dir@, stem@, platform), opt_view(r)),
{
    let cands = icon_candidate_paths(dir, stem, platform);
    let found = ask_is_file_in_order(&cands);
    let r = first_found(cands.as_slice(), found.as_slice());
    proof {
        lemma_first_flagged_from(icon_candidates(dir@, stem@, platform), found@, 0);
        assert(asked_until_found(icon_candidates(dir@, stem@, platform), found@));
    }
    r
}

/// The icon chosen for a workspace is the first of `dir/stem.png`, `.svg`,
/// `.jpg`, `.jpeg` that is a file: where every earlier one was answered no
/// file and this one is a file, it is the icon (an SVG is taken where there
/// is no PNG); where none of them is a file, all four were asked and there
/// is no icon.
pub proof fn law_icon_is_first_existing(
    dir: Seq<char>,
    stem: Seq<char>,
    platform: Platform,
    found: Seq<bool>,
    r: Option<Seq<char>>,
    i: int,
)
    requires
        asked_until_found(icon_candidates(dir, stem, platform), found),
        r == first_flagged(icon_candidates(dir, stem, platform), found),
        0 <= i < 4,
        forall|j: int| 0 <= j < i ==> j < found.len() && !found[j],
    ensures
        i < found.len(),
        found[i] ==> r == Some(joined_path(dir, stem + "."@ + icon_exts()[i], platform)),
        r is None ==> found.len() == 4 && forall|j: int| 0 <= j < 4 ==> !#[trigger] found[j],
{
    let cands = icon_candidates(dir, stem, platform);
    assert(icon_exts().len() == 4);
    assert(cands.len() == 4);
    law_search_gives_first_existing(cands, found, i);
    lemma_search_none(cands, found);
}

/// What a listed workspace file shows: its path, display name and icon.
pub open spec fn entry_view(e: WorkspaceEntry) -> (Seq<char>, Seq<char>, Option<Seq<char>>) {
    (e.path@, e.display_name@, opt_view(e.auto_icon))
}

/// The workspace stem of a folder entry's file name, if it has one.
pub open spec fn entry_stem(d: DirEntryInfo) -> Option<Seq<char>> {
    match d.file_name {
        Some(n) => workspace_stem(n@),
        None => None,
    }
}

/// The workspace files among folder entries `ds`, in entry order, given
/// for each entry whether it is a file (`files`) and the icon found next
/// to it (`icons`): each entry that is a file and has a workspace stem,
/// shown with that stem as display name and its icon. An entry without an
/// answer counts as no file; one without an icon has none.
pub open spec fn selected_from(
    ds: Seq<DirEntryInfo>,
    files: Seq<bool>,
    icons: Seq<Option<String>>,
) -> Seq<(Seq<char>, Seq<char>, Option<Seq<char>>)>
    decreases ds.len(),
{
    if ds.len() == 0 {
        seq![]
    } else {
        let i = ds.len() - 1;
        let rest = selected_from(ds.drop_last(), files, icons);
        let d = ds[i];
        if i < files.len() && files[i] && entry_stem(d) is Some {
            rest.push(
                (
                    d.path@,
                    entry_stem(d)->0,
                    if i < icons.len() {
                        opt_view(icons[i])
                    } else {
                        None
                    },
                ),
            )
        } else {
            rest
        }
    }
}

/// The workspace stem of file name `name`, as `workspace_stem` says.
fn stem_of(name: &String) -> (r: Option<String>)
    ensures
        opt_view(r) == workspace_stem(name@),
{
    let ext = chars_of(".code-workspace");
    let nc = string_chars(name);
    if ends_with(&nc, &ext) && nc.len() > ext.len() {
        let stem_chars = subvec(&nc, 0, nc.len() - ext.len());
        Some(string_of(&stem_chars))
    } else {
        None
    }
}

/// The workspace files among the entries of a folder, given for each
/// entry whether it is a file and the icon found next to it: exactly the
/// entries that are files and whose name ends in `.code-workspace` (with
/// something before it), in entry order, each with that something as
/// display name and its icon.
pub fn select_workspace_entries(
    entries: &Vec<DirEntryInfo>,
    is_file: &Vec<bool>,
    icons: &Vec<Option<String>>,
) -> (r: Vec<WorkspaceEntry>)
    ensures
        r@.map_values(|e: WorkspaceEntry| entry_view(e)) == selected_from(entries@, is_file@, icons@),
{
    let mut out: Vec<WorkspaceEntry> = Vec::new();
    let mut i: usize = 0;
    while i < entries.len()
        invariant
            i <= entries@.len(),
            out@.map_values(|e: WorkspaceEntry| entry_view(e)) == selected_from(
                entries@.subrange(0, i as int),
                is_file@,
                icons@,
            ),
        decreases entries@.len() - i,
    {
        let ghost before = entries@.subrange(0, i as int);
        let ghost after = entries@.subrange(0, i + 1);
        assert(after.drop_last() =~= before);
        assert(after[i as int] == entries@[i as int]);
        let d = &entries[i];
        if i < is_file.len() && is_file[i] {
            match &d.file_name {
                Some(n) => {
                    match stem_of(n) {
                        Some(stem) => {
                            let icon = if i < icons.len() {
                                match &icons[i] {
                                    Some(x) => Some(x.clone()),
                                    None => None,
                                }
                            } else {
                                None
                            };
                            let e = WorkspaceEntry { path: d.path.clone(), display_name: stem, auto_icon: icon };
                            let ghost prev = out@;
                            out.push(e);
                            assert(out@.map_values(|e: WorkspaceEntry| entry_view(e)) =~= prev.map_values(
                                |e: WorkspaceEntry| entry_view(e),
                            ).push(entry_view(e)));
                        },
                        None => {},
                    }
                },
                None => {},
            }
        }
        i += 1;
    }
    assert(entries@.subrange(0, entries@.len() as int) =~= entries@);
    out
}

/// A stem of a bare file name is a bare file name.
proof fn lemma_stem_bare(n: Seq<char>, platform: Platform)
    requires
        is_bare_file_name(n, platform),
        workspace_stem(n) is Some,
    ensures
        is_bare_file_name(workspace_stem(n)->0, platform),
{
    let stem = workspace_stem(n)->0;
    assert forall|q: int| 0 <= q < stem.len() implies !is_path_separator(#[trigger] stem[q], platform) by {
        assert(stem[q] == n[q]);
    }
    if stem.len() >= 2 {
        assert(stem[0] == n[0] && stem[1] == n[1]);
    }
}

/// Entries selected with icons that are candidates of their stems are
/// collected from the folder entries.
proof fn lemma_selected_collected(
    r: Seq<WorkspaceEntry>,
    ds: Seq<DirEntryInfo>,
    files: Seq<bool>,
    icons: Seq<Option<String>>,
    platform: Platform,
)
    requires
        r.map_values(|e: WorkspaceEntry| entry_view(e)) == selected_from(ds, files, icons),
        forall|k: int|
            0 <= k < ds.len() && k < icons.len() && #[trigger] icons[k] is Some ==> match entry_stem(ds[k]) {
                Some(st) => sibling_icon_of(ds[k].path@, st, icons[k]->0@, platform),
                None => false,
            },
    ensures
        collected_from(r, ds, platform),
    decreases ds.len(),
{
    let n = ds.len() as int;
    if n == 0 {
        let src: Seq<int> = seq![];
        assert(r.map_values(|e: WorkspaceEntry| entry_view(e)).len() == 0);
        assert(collected_via(r, ds, platform, src));
    } else {
        let i = n - 1;
        let q = ds.drop_last();
        let rest = selected_from(q, files, icons);
        let d = ds[i];
        let pushed = i < files.len() && files[i] && entry_stem(d) is Some;
        let rq = if pushed {
            r.drop_last()
        } else {
            r
        };
        assert(rq.map_values(|e: WorkspaceEntry| entry_view(e)) =~= rest) by {
            if pushed {
                assert(r.map_values(|e: WorkspaceEntry| entry_view(e)).drop_last() =~= rq.map_values(
                    |e: WorkspaceEntry| entry_view(e),
                ));
            }
        }
        assert forall|k: int|
            0 <= k < q.len() && k < icons.len() && #[trigger] icons[k] is Some implies match entry_stem(q[k]) {
                Some(st) => sibling_icon_of(ds[k].path@, st, icons[k]->0@, platform),
                None => false,
            } by {
            assert(q[k] == ds[k]);
        }
        lemma_selected_collected(rq, q, files, icons, platform);
        let src0 = choose|src: Seq<int>| collected_via(rq, q, platform, src);
        if pushed {
            let src = src0.push(i);
            let e = r.last();
            assert(entry_view(e) == r.map_values(|e: WorkspaceEntry| entry_view(e))[r.len() - 1]);
            assert(entry_from(e, d, platform)) by {
                let st = entry_stem(d)->0;
                if i < icons.len() && icons[i] is Some {
                    assert(sibling_icon_of(d.path@, st, icons[i]->0@, platform));
                }
            }
            assert forall|k: int| 0 <= k < r.len() implies entry_from(#[trigger] r[k], ds[src[k]], platform) by {
                if k < rq.len() {
                    assert(r[k] == rq[k]);
                    assert(q[src0[k]] == ds[src0[k]]);
                }
            }
            assert(forall|k: int| 0 <= k < src.len() ==> 0 <= #[trigger] src[k] < ds.len());
            assert(forall|k: int, l: int| 0 <= k < l < src.len() ==> #[trigger] src[k] < #[trigger] src[l]);
            assert(collected_via(r, ds, platform, src));
        } else {
            assert forall|k: int| 0 <= k < r.len() implies entry_from(#[trigger] r[k], ds[src0[k]], platform) by {
                assert(q[src0[k]] == ds[src0[k]]);
            }
            assert(forall|k: int| 0 <= k < src0.len() ==> 0 <= #[trigger] src0[k] < ds.len());
            assert(collected_via(r, ds, platform, src0));
        }
    }
}

/// The icon chosen for folder entry `d`, given whether it is a file: for a
/// workspace file, what the search next to it (in the parent of its path)
/// gives; for anything else, none.
pub open spec fn icon_found(d: DirEntryInfo, is_a_file: bool, icon: Option<String>, platform: Platform) -> bool {
    if is_a_file && entry_stem(d) is Some {
        match path_parent(d.path@, platform) {
            Some(dir) => search_outcome(icon_candidates(dir, entry_stem(d)->0, platform), opt_view(icon)),
            None => icon is None,
        }
    } else {
        icon is None
    }
}

/// `r` lists the workspace files of folder entries `entries`, where
/// `files[k]` is what `Path::is_file` answered for entry `k`'s path and
/// `icons[k]` the icon found for it.
pub open spec fn listed_with(
    entries: Seq<DirEntryInfo>,
    platform: Platform,
    r: Seq<WorkspaceEntry>,
    files: Seq<bool>,
    icons: Seq<Option<String>>,
) -> bool {
    &&& files.len() == entries.len()
    &&& icons.len() == entries.len()
    &&& forall|k: int| 0 <= k < entries.len() ==> is_file_answer(entries[k].path@, #[trigger] files[k])
    &&& forall|k: int| 0 <= k < entries.len() ==> icon_found(entries[k], files[k], #[trigger] icons[k], platform)
    &&& r.map_values(|e: WorkspaceEntry| entry_view(e)) == selected_from(entries, files, icons)
}

/// `r` lists the workspace files of folder entries `entries`: every entry
/// whose path `Path::is_file` answered `true` for and whose name is a
/// workspace file name, in order, with the icon found next to it.
pub open spec fn listing_of(entries: Seq<DirEntryInfo>, platform: Platform, r: Seq<WorkspaceEntry>) -> bool {
    exists|files: Seq<bool>, icons: Seq<Option<String>>| #[trigger] listed_with(entries, platform, r, files, icons)
}

/// The workspace files among the entries of a folder, in entry order:
/// each entry that is a file (as the disk says) and whose name ends in
/// `.code-workspace` (with something before it), with that something as
/// display name and the icon found next to it, in the parent of the
/// entry's path. Which entries are files
/// and which icons exist is up to the disk; `select_workspace_entries`
/// says exactly what comes out for each answer.
pub fn collect_workspace_files(entries: &Vec<DirEntryInfo>, platform: Platform) -> (r: Vec<WorkspaceEntry>)
    requires
        forall|k: int|
            0 <= k < entries@.len() ==> match (#[trigger] entries@[k]).file_name {
                Some(n) => is_bare_file_name(n@, platform),
                None => true,
            },
    ensures
        collected_from(r@, entries@, platform),
        listing_of(entries@, platform, r@),
{
    let mut files: Vec<bool> = Vec::new();
    let mut icons: Vec<Option<String>> = Vec::new();
    let mut i: usize = 0;
    while i < entries.len()
        invariant
            i <= entries@.len(),
            files@.len() == i,
            icons@.len() == i,
            forall|k: int|
                0 <= k < entries@.len() ==> match (#[trigger] entries@[k]).file_name {
                    Some(n) => is_bare_file_name(n@, platform),
                    None => true,
                },
            forall|k: int|
                0 <= k < icons@.len() && #[trigger] icons@[k] is Some ==> match entry_stem(entries@[k]) {
                    Some(st) => sibling_icon_of(entries@[k].path@, st, icons@[k]->0@, platform),
                    None => false,
                },
            forall|k: int| 0 <= k < i ==> is_file_answer(entries@[k].path@, #[trigger] files@[k]),
            forall|k: int| 0 <= k < i ==> icon_found(entries@[k], files@[k], #[trigger] icons@[k], platform),
        decreases entries@.len() - i,
    {
        let d = &entries[i];
        let f = ask_is_file(&d.path);
        let mut icon: Option<String> = None;
        if f {
            match &d.file_name {
                Some(n) => {
                    match stem_of(n) {
                        Some(stem) => {
                            assert(entries@[i as int].file_name == Some(*n));
                            proof {
                                lemma_stem_bare(n@, platform);
                            }
                            icon = match path_parent_exec(&d.path, platform) {
                                Some(dir) => find_sibling_icon(&dir, &stem, platform),
                                None => None,
                            };
                        },
                        None => {},
                    }
                },
                None => {},
            }
        }
        assert(icon_found(entries@[i as int], f, icon, platform));
        let ghost prev_files = files@;
        files.push(f);
        let ghost prev = icons@;
        icons.push(icon);
        assert forall|k: int| 0 <= k < i + 1 implies is_file_answer(entries@[k].path@, #[trigger] files@[k]) by {
            if k < i {
                assert(files@[k] == prev_files[k]);
            }
        }
        assert forall|k: int| 0 <= k < i + 1 implies icon_found(entries@[k], files@[k], #[trigger] icons@[k], platform) by {
            if k < i {
                assert(files@[k] == prev_files[k]);
                assert(icons@[k] == prev[k]);
            }
        }
        assert forall|k: int|
            0 <= k < icons@.len() && #[trigger] icons@[k] is Some implies match entry_stem(entries@[k]) {
                Some(st) => sibling_icon_of(entries@[k].path@, st, icons@[k]->0@, platform),
                None => false,
            } by {
            if k < prev.len() {
                assert(icons@[k] == prev[k]);
            }
        }
        i += 1;
    }
    let r = select_workspace_entries(entries, &files, &icons);
    proof {
        lemma_selected_collected(r@, entries@, files@, icons@, platform);
        assert(listed_with(entries@, platform, r@, files@, icons@));
    }
    r
}

/// Lists the `.code-workspace` files of a folder (non-recursive), given
/// its entries: the workspace files, with their icons, sorted by
/// display name ignoring case; equal names keep the entries' order.
pub fn scan(entries: Vec<DirEntryInfo>, platform: Platform) -> (r: Vec<WorkspaceEntry>)
    requires
        forall|k: int|
            0 <= k < entries@.len() ==> match (#[trigger] entries@[k]).file_name {
                Some(n) => is_bare_file_name(n@, platform),
                None => true,
            },
    ensures
        exists|sel: Seq<WorkspaceEntry>|
            collected_from(sel, entries@, platform) && listing_of(entries@, platform, sel) && #[trigger] stably_sorted(
                r@,
                sel,
                entry_keys(sel),
            ),
{
    let found = collect_workspace_files(&entries, platform);
    let mut keys: Vec<String> = Vec::new();
    let mut i: usize = 0;
    while i < found.len()
        invariant
            i <= found@.len(),
            keys@.map_values(|k: String| k@) == entry_keys(found@).subrange(0, i as int),
        decreases found@.len() - i,
    {
        let ghost prev = keys@;
        let k = to_lowercase(found[i].display_name.as_str());
        keys.push(k);
        assert(keys@.map_values(|k: String| k@) =~= prev.map_values(|k: String| k@).push(k@));
        assert(entry_keys(found@).subrange(0, i + 1) =~= entry_keys(found@).subrange(0, i as int).push(lowercase(found@[i as int].display_name@)));
        i += 1;
    }
    assert(entry_keys(found@).subrange(0, found@.len() as int) =~= entry_keys(found@));
    let ghost sel = found@;
    let r = sort_by_keys(found, &keys);
    assert(stably_sorted(r@, sel, entry_keys(sel)));
    r
}


proof fn lemma_selected_has(ds: Seq<DirEntryInfo>, files: Seq<bool>, icons: Seq<Option<String>>, k: int)
    requires
        0 <= k < ds.len(),
        k < files.len(),
        files[k],
        entry_stem(ds[k]) is Some,
    ensures
        exists|j: int|
            0 <= j < selected_from(ds, files, icons).len() && #[trigger] selected_from(ds, files, icons)[j] == (
                ds[k].path@,
                entry_stem(ds[k])->0,
                if k < icons.len() {
                    opt_view(icons[k])
                } else {
                    None
                },
            ),
    decreases ds.len(),
{
    let q = ds.drop_last();
    let n = ds.len() - 1;
    let s = selected_from(ds, files, icons);
    let sq = selected_from(q, files, icons);
    let want = (
        ds[k].path@,
        entry_stem(ds[k])->0,
        if k < icons.len() {
            opt_view(icons[k])
        } else {
            None
        },
    );
    if k < n {
        assert(q[k] == ds[k]);
        lemma_selected_has(q, files, icons, k);
        let j = choose|j: int| 0 <= j < sq.len() && #[trigger] sq[j] == want;
        assert(s[j] == sq[j]);
    } else {
        assert(s[s.len() - 1] == want);
    }
}

proof fn lemma_selected_from_entry(ds: Seq<DirEntryInfo>, files: Seq<bool>, icons: Seq<Option<String>>, j: int)
    requires
        0 <= j < selected_from(ds, files, icons).len(),
    ensures
        exists|k: int|
            0 <= k < ds.len() && k < files.len() && files[k] && #[trigger] entry_stem(ds[k]) == Some(
                selected_from(ds, files, icons)[j].1,
            ) && selected_from(ds, files, icons)[j].0 == ds[k].path@,
    decreases ds.len(),
{
    let q = ds.drop_last();
    let n = ds.len() - 1;
    let s = selected_from(ds, files, icons);
    let sq = selected_from(q, files, icons);
    if j < sq.len() {
        assert(s[j] == sq[j]);
        lemma_selected_from_entry(q, files, icons, j);
        let k = choose|k: int|
            0 <= k < q.len() && k < files.len() && files[k] && #[trigger] entry_stem(q[k]) == Some(sq[j].1)
                && sq[j].0 == q[k].path@;
        assert(q[k] == ds[k]);
    } else {
        assert(ds[n] == ds.last());
        assert(entry_stem(ds[n]) == Some(s[j].1));
    }
}

proof fn lemma_listed_members(
    entries: Seq<DirEntryInfo>,
    r: Seq<WorkspaceEntry>,
    files: Seq<bool>,
    icons: Seq<Option<String>>,
)
    requires
        files.len() == entries.len(),
        icons.len() == entries.len(),
        r.map_values(|e: WorkspaceEntry| entry_view(e)) == selected_from(entries, files, icons),
    ensures
        forall|k: int|
            0 <= k < entries.len() && files[k] && #[trigger] entry_stem(entries[k]) is Some ==> exists|j: int|
                0 <= j < r.len() && (#[trigger] r[j]).path@ == entries[k].path@ && r[j].display_name@ == entry_stem(
                    entries[k],
                )->0 && opt_view(r[j].auto_icon) == opt_view(icons[k]),
        forall|j: int|
            0 <= j < r.len() ==> exists|k: int|
                0 <= k < entries.len() && files[k] && entry_stem(entries[k]) == Some((#[trigger] r[j]).display_name@)
                    && r[j].path@ == entries[k].path@,
{
    let s = selected_from(entries, files, icons);
    let rv = r.map_values(|e: WorkspaceEntry| entry_view(e));
    assert forall|k: int|
        0 <= k < entries.len() && files[k] && #[trigger] entry_stem(entries[k]) is Some implies exists|j: int|
            0 <= j < r.len() && (#[trigger] r[j]).path@ == entries[k].path@ && r[j].display_name@ == entry_stem(
                entries[k],
            )->0 && opt_view(r[j].auto_icon) == opt_view(icons[k]) by {
        lemma_selected_has(entries, files, icons, k);
        let j = choose|j: int|
            0 <= j < s.len() && #[trigger] s[j] == (entries[k].path@, entry_stem(entries[k])->0, opt_view(icons[k]));
        assert(rv[j] == entry_view(r[j]));
    }
    assert forall|j: int| 0 <= j < r.len() implies exists|k: int|
        0 <= k < entries.len() && files[k] && entry_stem(entries[k]) == Some((#[trigger] r[j]).display_name@)
            && r[j].path@ == entries[k].path@ by {
        assert(rv[j] == entry_view(r[j]));
        lemma_selected_from_entry(entries, files, icons, j);
    }
}

/// A scan lists every workspace file and nothing else: each folder entry
/// that `Path::is_file` answered `true` for and whose name ends in
/// `.code-workspace` (with something before it) is listed, with that
/// something as display name and the icon found for it; and each listed
/// entry is such a folder entry.
pub proof fn law_listing_has_every_workspace_file(
    entries: Seq<DirEntryInfo>,
    platform: Platform,
    r: Seq<WorkspaceEntry>,
    files: Seq<bool>,
    icons: Seq<Option<String>>,
)
    requires
        listed_with(entries, platform, r, files, icons),
    ensures
        forall|k: int|
            0 <= k < entries.len() && files[k] && #[trigger] entry_stem(entries[k]) is Some ==> exists|j: int|
                0 <= j < r.len() && (#[trigger] r[j]).path@ == entries[k].path@ && r[j].display_name@ == entry_stem(
                    entries[k],
                )->0 && opt_view(r[j].auto_icon) == opt_view(icons[k]),
        forall|j: int|
            0 <= j < r.len() ==> exists|k: int|
                0 <= k < entries.len() && files[k] && entry_stem(entries[k]) == Some((#[trigger] r[j]).display_name@)
                    && r[j].path@ == entries[k].path@,
{
    lemma_listed_members(entries, r, files, icons);
}

/// A workspace file named after a stem gives that stem back as its display
/// name, and the display name with the extension is the file name again.
pub proof fn law_stem_round_trip(stem: Seq<char>, name: Seq<char>)
    ensures
        stem.len() > 0 ==> workspace_stem(stem + workspace_ext()) == Some(stem),
        workspace_stem(name) matches Some(st) ==> st + workspace_ext() == name && st.len() > 0,
{
    let n = stem + workspace_ext();
    if stem.len() > 0 {
        assert(n.subrange(n.len() - workspace_ext().len(), n.len() as int) =~= workspace_ext());
        assert(n.subrange(0, n.len() - workspace_ext().len()) =~= stem);
    }
    if workspace_stem(name) is Some {
        let st = name.subrange(0, name.len() - workspace_ext().len());
        assert(name.subrange(name.len() - workspace_ext().len(), name.len() as int) == workspace_ext());
        assert(st + workspace_ext() =~= name);
    }
}

/// A stably sorted list holds each element of the input list once, and
/// its keys ascend.
pub proof fn law_sorted_keys_ascend<T>(r: Seq<T>, v: Seq<T>, keys: Seq<Seq<char>>, k: int, l: int)
    requires
        stably_sorted(r, v, keys),
        0 <= k < l < r.len(),
    ensures
        r.len() == v.len(),
        exists|a: int, b: int| 0 <= a < v.len() && 0 <= b < v.len() && a != b && r[k] == v[a] && r[l] == v[b]
            && text_le(keys[a], keys[b]),
{
    let idx = choose|idx: Seq<int>|
        {
            &&& is_permutation(idx, v.len() as int)
            &&& stably_ordered(idx, keys)
            &&& forall|k: int| 0 <= k < r.len() ==> #[trigger] r[k] == v[idx[k]]
        };
    assert(r[k] == v[idx[k]] && r[l] == v[idx[l]]);
    assert(text_le(keys[idx[k]], keys[idx[l]]));
    assert(idx[k] != idx[l]);
}

} // verus!
