//! How `Path` reads a path into components, and when two paths are one
//! path as `Path`'s `==` and hashing see it: by their components, so
//! `/a/b`, `/a/b/`, `/a//b` and `/a/./b` are one path; on Windows `C:\x`
//! and `c:/x` are one path, and so are `\\s\h\x` and `\\s\h\\x`.
//!
//! On Windows a path may start with a prefix, as `std::path::Prefix` reads
//! it: a drive `C:`, a network share `\\server\share`, a device `\\.\name`,
//! or a verbatim form `\\?\C:`, `\\?\UNC\server\share`, `\\?\name`. In a
//! verbatim path only `\` separates components and `.` is a component.
use vstd::prelude::*;

use crate::platform::Platform;
use crate::running::{has_drive_prefix, is_ascii_letter};
use crate::text::{opt_view, string_chars, string_of, subvec};

verus! {

/// What `Path` equality looks at in a path: the kind of its prefix (none,
/// drive, verbatim drive, verbatim, verbatim share, device, share), the
/// prefix's fields (the upper-case drive letter, or the names in it),
/// whether the path has a root, whether it starts with a `.` component,
/// and its other components.
pub type PathId = (int, Seq<char>, Seq<char>, bool, bool, Seq<Seq<char>>);

/// No prefix.
pub open spec fn kind_none() -> int {
    0
}

/// A drive `C:`.
pub open spec fn kind_disk() -> int {
    1
}

/// A verbatim drive `\\?\C:`.
pub open spec fn kind_verbatim_disk() -> int {
    2
}

/// A verbatim name `\\?\name`.
pub open spec fn kind_verbatim() -> int {
    3
}

/// A verbatim share `\\?\UNC\server\share`.
pub open spec fn kind_verbatim_unc() -> int {
    4
}

/// A device `\\.\name`.
pub open spec fn kind_device() -> int {
    5
}

/// A share `\\server\share`.
pub open spec fn kind_unc() -> int {
    6
}

/// A separator on `platform`; in a verbatim path only `\`.
pub open spec fn is_sep_in(c: char, platform: Platform, verbatim: bool) -> bool {
    (c == '/' && !verbatim) || (platform == Platform::Windows && c == '\\')
}

/// `/` or `\`.
pub open spec fn is_slash(c: char) -> bool {
    c == '/' || c == '\\'
}

/// ASCII upper case of one character.
pub open spec fn ascii_upper(c: char) -> char {
    if 'a' <= c && c <= 'z' {
        ((c as u32) - 32) as char
    } else {
        c
    }
}

/// The end of the Windows component that starts at `i`: the first
/// separator at or after `i` (only `\` in a verbatim path), or the end.
pub open spec fn comp_end(p: Seq<char>, i: int, verbatim: bool) -> int
    decreases p.len() - i,
{
    if i < 0 || i >= p.len() {
        p.len() as int
    } else if is_sep_in(p[i], Platform::Windows, verbatim) {
        i
    } else {
        comp_end(p, i + 1, verbatim)
    }
}

/// Just past the separator that ends a component at `e`, if there is one.
pub open spec fn after_comp(p: Seq<char>, e: int) -> int {
    if e < p.len() {
        e + 1
    } else {
        e
    }
}

/// The Windows prefix of `p`, as `std::path::Prefix` parses it: its kind,
/// its fields and its length in characters.
pub open spec fn win_prefix(p: Seq<char>) -> (int, Seq<char>, Seq<char>, int) {
    if p.len() >= 2 && is_slash(p[0]) && is_slash(p[1]) {
        if p.len() >= 4 && p[0] == '\\' && p[1] == '\\' && p[2] == '?' && p[3] == '\\' {
            if p.len() >= 8 && p[4] == 'U' && p[5] == 'N' && p[6] == 'C' && is_slash(p[7]) {
                let se = comp_end(p, 8, true);
                let hs = after_comp(p, se);
                let he = comp_end(p, hs, true);
                (kind_verbatim_unc(), p.subrange(8, se), p.subrange(hs, he), if he > hs {
                    he
                } else {
                    se
                })
            } else if p.len() >= 6 && is_ascii_letter(p[4]) && p[5] == ':' && (p.len() == 6 || p[6] == '\\') {
                (kind_verbatim_disk(), seq![ascii_upper(p[4])], seq![], 6)
            } else {
                let e = comp_end(p, 4, true);
                (kind_verbatim(), p.subrange(4, e), seq![], e)
            }
        } else if p.len() >= 4 && p[2] == '.' && is_slash(p[3]) {
            let e = comp_end(p, 4, false);
            (kind_device(), p.subrange(4, e), seq![], e)
        } else {
            let se = comp_end(p, 2, false);
            let hs = after_comp(p, se);
            let he = comp_end(p, hs, false);
            if se > 2 && he > hs {
                (kind_unc(), p.subrange(2, se), p.subrange(hs, he), he)
            } else {
                (kind_none(), seq![], seq![], 0)
            }
        }
    } else if has_drive_prefix(p) {
        (kind_disk(), seq![ascii_upper(p[0])], seq![], 2)
    } else {
        (kind_none(), seq![], seq![], 0)
    }
}

/// The prefix of `p` on `platform`; outside Windows there is none.
pub open spec fn prefix_of(p: Seq<char>, platform: Platform) -> (int, Seq<char>, Seq<char>, int) {
    if platform == Platform::Windows {
        win_prefix(p)
    } else {
        (kind_none(), seq![], seq![], 0)
    }
}

/// Whether `p` is a verbatim path.
pub open spec fn is_verbatim(p: Seq<char>, platform: Platform) -> bool {
    let k = prefix_of(p, platform).0;
    kind_verbatim_disk() <= k <= kind_verbatim_unc()
}

/// Whether a separator follows the prefix of `p`.
pub open spec fn has_physical_root(p: Seq<char>, platform: Platform) -> bool {
    let l = prefix_of(p, platform).3;
    l < p.len() && is_sep_in(p[l], platform, false)
}

/// Whether `p` has a root component: a separator after its prefix, or a
/// share or device prefix, which has one of its own.
pub open spec fn is_rooted(p: Seq<char>, platform: Platform) -> bool {
    let k = prefix_of(p, platform).0;
    has_physical_root(p, platform) || k == kind_device() || k == kind_unc()
}

/// Whether `p` starts with a `.` component: no root, no prefix but a drive,
/// and `.` alone or followed by a separator right after the prefix.
pub open spec fn starts_at_cur_dir(p: Seq<char>, platform: Platform) -> bool {
    let k = prefix_of(p, platform).0;
    let l = prefix_of(p, platform).3;
    &&& !has_physical_root(p, platform)
    &&& (k == kind_none() || k == kind_disk())
    &&& l < p.len()
    &&& p[l] == '.'
    &&& (l + 1 == p.len() || is_sep_in(p[l + 1], platform, false))
}

/// Where the components of `p` start: after its prefix and root.
pub open spec fn body_start(p: Seq<char>, platform: Platform) -> int {
    prefix_of(p, platform).3 + if has_physical_root(p, platform) {
        1int
    } else {
        0int
    }
}

/// `acc` with the piece `cur` added, unless it is empty, or `.` outside a
/// verbatim path.
pub open spec fn keep_part(acc: Seq<Seq<char>>, cur: Seq<char>, verbatim: bool) -> Seq<Seq<char>> {
    if cur.len() == 0 || (!verbatim && cur == seq!['.']) {
        acc
    } else {
        acc.push(cur)
    }
}

/// The components of `p[i..]`, after the components `acc` and the piece
/// `cur` read so far: the pieces between separators, without empty pieces
/// and (outside a verbatim path) `.` pieces.
pub open spec fn parts_from(
    p: Seq<char>,
    platform: Platform,
    verbatim: bool,
    i: int,
    cur: Seq<char>,
    acc: Seq<Seq<char>>,
) -> Seq<Seq<char>>
    decreases p.len() - i,
{
    if i < 0 || i >= p.len() {
        keep_part(acc, cur, verbatim)
    } else if is_sep_in(p[i], platform, verbatim) {
        parts_from(p, platform, verbatim, i + 1, seq![], keep_part(acc, cur, verbatim))
    } else {
        parts_from(p, platform, verbatim, i + 1, cur.push(p[i]), acc)
    }
}

/// The components of `p` after its prefix, root and leading `.`.
pub open spec fn path_parts(p: Seq<char>, platform: Platform) -> Seq<Seq<char>> {
    parts_from(p, platform, is_verbatim(p, platform), body_start(p, platform), seq![], seq![])
}

/// What `Path` equality looks at in `p` on `platform`.
pub open spec fn path_id(p: Seq<char>, platform: Platform) -> PathId {
    let pre = prefix_of(p, platform);
    (pre.0, pre.1, pre.2, is_rooted(p, platform), starts_at_cur_dir(p, platform), path_parts(p, platform))
}

/// `p` and `q` are one path.
pub open spec fn same_path_spec(p: Seq<char>, q: Seq<char>, platform: Platform) -> bool {
    path_id(p, platform) == path_id(q, platform)
}

/// The last component of `p` where it is a name, as `Path::file_name`
/// reads it: none where the path ends in its prefix, its root, a `.` or a
/// `..`.
pub open spec fn last_name(p: Seq<char>, platform: Platform) -> Option<Seq<char>> {
    let ps = path_parts(p, platform);
    if ps.len() == 0 || ps.last() == seq!['.', '.'] || (is_verbatim(p, platform) && ps.last() == seq!['.']) {
        None
    } else {
        Some(ps.last())
    }
}

proof fn lemma_comp_end_bounds(p: Seq<char>, i: int, verbatim: bool)
    requires
        0 <= i <= p.len(),
    ensures
        i <= comp_end(p, i, verbatim) <= p.len(),
    decreases p.len() - i,
{
    if i < p.len() && !is_sep_in(p[i], Platform::Windows, verbatim) {
        lemma_comp_end_bounds(p, i + 1, verbatim);
    }
}

/// A prefix lies within its path, and the components start after it.
pub proof fn lemma_prefix_bounds(p: Seq<char>, platform: Platform)
    ensures
        0 <= prefix_of(p, platform).3 <= p.len(),
        prefix_of(p, platform).3 <= body_start(p, platform) <= p.len(),
{
    if p.len() >= 8 {
        lemma_comp_end_bounds(p, 8, true);
        let se = comp_end(p, 8, true);
        lemma_comp_end_bounds(p, after_comp(p, se), true);
    }
    if p.len() >= 4 {
        lemma_comp_end_bounds(p, 4, true);
        lemma_comp_end_bounds(p, 4, false);
    }
    if p.len() >= 2 {
        lemma_comp_end_bounds(p, 2, false);
        let se = comp_end(p, 2, false);
        lemma_comp_end_bounds(p, after_comp(p, se), false);
    }
}

/// The texts of a list of character vectors.
pub open spec fn part_views(v: Seq<Vec<char>>) -> Seq<Seq<char>> {
    v.map_values(|x: Vec<char>| x@)
}

/// A separator on `platform`; in a verbatim path only `\`.
fn is_sep_exec(c: char, platform: Platform, verbatim: bool) -> (r: bool)
    ensures
        r == is_sep_in(c, platform, verbatim),
{
    (c == '/' && !verbatim) || (platform.is_windows() && c == '\\')
}

/// An ASCII letter.
fn is_letter(c: char) -> (r: bool)
    ensures
        r == is_ascii_letter(c),
{
    ('A' <= c && c <= 'Z') || ('a' <= c && c <= 'z')
}

/// ASCII upper case of a letter.
fn upper(c: char) -> (r: char)
    requires
        is_ascii_letter(c),
    ensures
        r == ascii_upper(c),
{
    if 'a' <= c && c <= 'z' {
        ((c as u32) - 32) as u8 as char
    } else {
        c
    }
}

/// One character as a vector.
fn single(c: char) -> (r: Vec<char>)
    ensures
        r@ == seq![c],
{
    let mut v: Vec<char> = Vec::new();
    v.push(c);
    assert(v@ =~= seq![c]);
    v
}

/// The end of the Windows component that starts at `i`.
fn comp_end_exec(p: &Vec<char>, i: usize, verbatim: bool) -> (r: usize)
    requires
        i <= p@.len(),
    ensures
        r as int == comp_end(p@, i as int, verbatim),
        i <= r <= p@.len(),
{
    let mut j = i;
    while j < p.len() && !is_sep_exec(p[j], Platform::Windows, verbatim)
        invariant
            i <= j <= p@.len(),
            comp_end(p@, j as int, verbatim) == comp_end(p@, i as int, verbatim),
        decreases p@.len() - j,
    {
        j += 1;
    }
    j
}

/// The Windows prefix of `p`: kind, fields and length.
fn win_prefix_exec(p: &Vec<char>) -> (r: (u8, Vec<char>, Vec<char>, usize))
    ensures
        r.0 as int == win_prefix(p@).0,
        r.1@ == win_prefix(p@).1,
        r.2@ == win_prefix(p@).2,
        r.3 as int == win_prefix(p@).3,
        r.3 <= p@.len(),
{
    let n = p.len();
    let none: (u8, Vec<char>, Vec<char>, usize) = (0, Vec::new(), Vec::new(), 0);
    assert(none.1@ =~= Seq::<char>::empty());
    if n >= 2 && (p[0] == '/' || p[0] == '\\') && (p[1] == '/' || p[1] == '\\') {
        if n >= 4 && p[0] == '\\' && p[1] == '\\' && p[2] == '?' && p[3] == '\\' {
            if n >= 8 && p[4] == 'U' && p[5] == 'N' && p[6] == 'C' && (p[7] == '/' || p[7] == '\\') {
                let se = comp_end_exec(p, 8, true);
                let hs = if se < n {
                    se + 1
                } else {
                    se
                };
                let he = comp_end_exec(p, hs, true);
                let l = if he > hs {
                    he
                } else {
                    se
                };
                (4, subvec(p, 8, se), subvec(p, hs, he), l)
            } else if n >= 6 && is_letter(p[4]) && p[5] == ':' && (n == 6 || p[6] == '\\') {
                let d = single(upper(p[4]));
                let e: Vec<char> = Vec::new();
                assert(e@ =~= Seq::<char>::empty());
                (2, d, e, 6)
            } else {
                let e = comp_end_exec(p, 4, true);
                let z: Vec<char> = Vec::new();
                assert(z@ =~= Seq::<char>::empty());
                (3, subvec(p, 4, e), z, e)
            }
        } else if n >= 4 && p[2] == '.' && (p[3] == '/' || p[3] == '\\') {
            let e = comp_end_exec(p, 4, false);
            let z: Vec<char> = Vec::new();
            assert(z@ =~= Seq::<char>::empty());
            (5, subvec(p, 4, e), z, e)
        } else {
            let se = comp_end_exec(p, 2, false);
            let hs = if se < n {
                se + 1
            } else {
                se
            };
            let he = comp_end_exec(p, hs, false);
            if se > 2 && he > hs {
                (6, subvec(p, 2, se), subvec(p, hs, he), he)
            } else {
                none
            }
        }
    } else if n >= 2 && is_letter(p[0]) && p[1] == ':' {
        let d = single(upper(p[0]));
        let e: Vec<char> = Vec::new();
        assert(e@ =~= Seq::<char>::empty());
        (1, d, e, 2)
    } else {
        none
    }
}

/// Whether two character vectors hold the same text.
fn chars_equal(a: &Vec<char>, b: &Vec<char>) -> (r: bool)
    ensures
        r == (a@ == b@),
{
    if a.len() != b.len() {
        return false;
    }
    let mut i: usize = 0;
    while i < a.len()
        invariant
            a@.len() == b@.len(),
            i <= a@.len(),
            forall|j: int| 0 <= j < i ==> a@[j] == b@[j],
        decreases a@.len() - i,
    {
        if a[i] != b[i] {
            return false;
        }
        i += 1;
    }
    assert(a@ =~= b@);
    true
}

/// Whether two lists of character vectors hold the same texts.
fn parts_equal(a: &Vec<Vec<char>>, b: &Vec<Vec<char>>) -> (r: bool)
    ensures
        r == (part_views(a@) == part_views(b@)),
{
    if a.len() != b.len() {
        assert(part_views(a@).len() != part_views(b@).len());
        return false;
    }
    let mut i: usize = 0;
    while i < a.len()
        invariant
            a@.len() == b@.len(),
            i <= a@.len(),
            forall|j: int| 0 <= j < i ==> a@[j]@ == b@[j]@,
        decreases a@.len() - i,
    {
        if !chars_equal(&a[i], &b[i]) {
            assert(part_views(a@)[i as int] != part_views(b@)[i as int]);
            return false;
        }
        i += 1;
    }
    assert(part_views(a@) =~= part_views(b@));
    true
}

/// Adds the piece `cur` to `acc` unless it is empty, or `.` outside a
/// verbatim path.
fn push_part(acc: &mut Vec<Vec<char>>, cur: Vec<char>, verbatim: bool)
    ensures
        part_views(final(acc)@) == keep_part(part_views(old(acc)@), cur@, verbatim),
{
    let skip = cur.len() == 0 || (!verbatim && cur.len() == 1 && cur[0] == '.');
    assert(skip == (cur@.len() == 0 || (!verbatim && cur@ == seq!['.']))) by {
        if cur@.len() == 1 && cur@[0] == '.' {
            assert(cur@ =~= seq!['.']);
        }
    }
    if !skip {
        let ghost prev = part_views(acc@);
        let ghost c = cur@;
        acc.push(cur);
        assert(part_views(acc@) =~= prev.push(c));
    }
}

/// The components of `p[start..]`.
fn parts_of(p: &Vec<char>, platform: Platform, verbatim: bool, start: usize) -> (r: Vec<Vec<char>>)
    requires
        start <= p@.len(),
    ensures
        part_views(r@) == parts_from(p@, platform, verbatim, start as int, seq![], seq![]),
{
    let mut acc: Vec<Vec<char>> = Vec::new();
    let mut cur: Vec<char> = Vec::new();
    let mut i = start;
    assert(part_views(acc@) =~= Seq::<Seq<char>>::empty());
    assert(cur@ =~= Seq::<char>::empty());
    while i < p.len()
        invariant
            start <= i <= p@.len(),
            parts_from(p@, platform, verbatim, i as int, cur@, part_views(acc@)) == parts_from(
                p@,
                platform,
                verbatim,
                start as int,
                seq![],
                seq![],
            ),
        decreases p@.len() - i,
    {
        let c = p[i];
        if is_sep_exec(c, platform, verbatim) {
            let done = cur;
            push_part(&mut acc, done, verbatim);
            cur = Vec::new();
            assert(cur@ =~= Seq::<char>::empty());
        } else {
            cur.push(c);
        }
        i += 1;
    }
    push_part(&mut acc, cur, verbatim);
    acc
}

/// What `Path` equality looks at in a path, and whether it is verbatim.
struct PathShape {
    kind: u8,
    field1: Vec<char>,
    field2: Vec<char>,
    rooted: bool,
    cur_dir: bool,
    parts: Vec<Vec<char>>,
    verbatim: bool,
    prefix_len: usize,
}

spec fn shape_view(s: PathShape) -> PathId {
    (s.kind as int, s.field1@, s.field2@, s.rooted, s.cur_dir, part_views(s.parts@))
}

/// Reads `p` into its prefix, root, leading `.` and components.
fn path_shape(p: &Vec<char>, platform: Platform) -> (r: PathShape)
    ensures
        shape_view(r) == path_id(p@, platform),
        r.verbatim == is_verbatim(p@, platform),
        r.prefix_len as int == prefix_of(p@, platform).3,
{
    let (kind, field1, field2, l) = if platform.is_windows() {
        win_prefix_exec(p)
    } else {
        let z1: Vec<char> = Vec::new();
        let z2: Vec<char> = Vec::new();
        assert(z1@ =~= Seq::<char>::empty());
        assert(z2@ =~= Seq::<char>::empty());
        (0u8, z1, z2, 0usize)
    };
    assert(kind as int == prefix_of(p@, platform).0 && l as int == prefix_of(p@, platform).3);
    let verbatim = 2 <= kind && kind <= 4;
    let phys = l < p.len() && is_sep_exec(p[l], platform, false);
    let rooted = phys || kind == 5 || kind == 6;
    let cur_dir = !phys && (kind == 0 || kind == 1) && l < p.len() && p[l] == '.' && (l + 1 == p.len()
        || is_sep_exec(p[l + 1], platform, false));
    let start = if phys {
        l + 1
    } else {
        l
    };
    let parts = parts_of(p, platform, verbatim, start);
    PathShape { kind, field1, field2, rooted, cur_dir, parts, verbatim, prefix_len: l }
}

/// Whether `p` is verbatim, the length of its prefix, whether it has a
/// root, and its components.
pub(crate) fn path_layout(p: &Vec<char>, platform: Platform) -> (r: (bool, usize, bool, Vec<Vec<char>>))
    ensures
        r.0 == is_verbatim(p@, platform),
        r.1 as int == prefix_of(p@, platform).3,
        r.1 <= p@.len(),
        r.2 == is_rooted(p@, platform),
        part_views(r.3@) == path_parts(p@, platform),
{
    proof {
        lemma_prefix_bounds(p@, platform);
    }
    let s = path_shape(p, platform);
    (s.verbatim, s.prefix_len, s.rooted, s.parts)
}

/// Whether `a` and `b` are one path on `platform`, as `Path`'s `==` sees
/// it: the same prefix (a drive in any case), the same root and leading
/// `.`, the same components.
pub fn same_path(a: &String, b: &String, platform: Platform) -> (r: bool)
    ensures
        r == same_path_spec(a@, b@, platform),
{
    let ac = string_chars(a);
    let bc = string_chars(b);
    let sa = path_shape(&ac, platform);
    let sb = path_shape(&bc, platform);
    sa.kind == sb.kind && chars_equal(&sa.field1, &sb.field1) && chars_equal(&sa.field2, &sb.field2)
        && sa.rooted == sb.rooted && sa.cur_dir == sb.cur_dir && parts_equal(&sa.parts, &sb.parts)
}

/// The last component of path `p` where it is a name, the way
/// `Path::file_name` reads it.
pub fn last_name_exec(p: &Vec<char>, platform: Platform) -> (r: Option<Vec<char>>)
    ensures
        match r {
            Some(v) => last_name(p@, platform) == Some(v@),
            None => last_name(p@, platform) is None,
        },
{
    let s = path_shape(p, platform);
    let n = s.parts.len();
    if n == 0 {
        return None;
    }
    let last = &s.parts[n - 1];
    assert(part_views(s.parts@).last() == last@);
    let is_dotdot = last.len() == 2 && last[0] == '.' && last[1] == '.';
    let is_dot = last.len() == 1 && last[0] == '.';
    assert(is_dotdot == (last@ == seq!['.', '.'])) by {
        if last@.len() == 2 && last@[0] == '.' && last@[1] == '.' {
            assert(last@ =~= seq!['.', '.']);
        }
    }
    assert(is_dot == (last@ == seq!['.'])) by {
        if last@.len() == 1 && last@[0] == '.' {
            assert(last@ =~= seq!['.']);
        }
    }
    if is_dotdot || (s.verbatim && is_dot) {
        None
    } else {
        Some(last.clone())
    }
}

/// The last separator in `p[lo..e]`, or `lo - 1` where there is none.
pub open spec fn last_sep(p: Seq<char>, platform: Platform, v: bool, lo: int, e: int) -> int
    decreases e - lo,
{
    if e <= lo {
        lo - 1
    } else if is_sep_in(p[e - 1], platform, v) {
        e - 1
    } else {
        last_sep(p, platform, v, lo, e - 1)
    }
}

/// A piece that is no component: empty, or `.` outside a verbatim path.
pub open spec fn is_empty_piece(piece: Seq<char>, v: bool) -> bool {
    piece.len() == 0 || (!v && piece == seq!['.'])
}

/// The end of `p[..e]` once trailing pieces that are no component are
/// dropped with the separators before them, not going below `lo`.
pub open spec fn trim_back(p: Seq<char>, platform: Platform, v: bool, lo: int, e: int) -> int
    decreases e - lo,
{
    if e <= lo {
        e
    } else {
        let k = last_sep(p, platform, v, lo, e);
        if is_empty_piece(p.subrange(k + 1, e), v) {
            trim_back(
                p,
                platform,
                v,
                lo,
                if lo <= k < e {
                    k
                } else {
                    lo
                },
            )
        } else {
            e
        }
    }
}

/// Where the components of `p` that `Path` reads from the back start:
/// after the prefix, the root and a leading `.`.
pub open spec fn back_floor(p: Seq<char>, platform: Platform) -> int {
    body_start(p, platform) + if starts_at_cur_dir(p, platform) {
        1int
    } else {
        0int
    }
}

/// The parent of `p`, as `Path::parent` gives it: the path without its
/// last component, trailing separators and `.` pieces; none where the path
/// ends in its prefix or root.
pub open spec fn path_parent(p: Seq<char>, platform: Platform) -> Option<Seq<char>> {
    let v = is_verbatim(p, platform);
    let lo = back_floor(p, platform);
    let e1 = trim_back(p, platform, v, lo, p.len() as int);
    if e1 <= lo {
        if starts_at_cur_dir(p, platform) {
            Some(p.subrange(0, prefix_of(p, platform).3))
        } else {
            None
        }
    } else {
        let k = last_sep(p, platform, v, lo, e1);
        let e2 = if k >= lo {
            k
        } else {
            lo
        };
        Some(p.subrange(0, trim_back(p, platform, v, lo, e2)))
    }
}

proof fn lemma_last_sep_bounds(p: Seq<char>, platform: Platform, v: bool, lo: int, e: int)
    requires
        0 <= lo <= e <= p.len(),
    ensures
        lo - 1 <= last_sep(p, platform, v, lo, e) < e,
        last_sep(p, platform, v, lo, e) >= lo ==> is_sep_in(p[last_sep(p, platform, v, lo, e)], platform, v),
    decreases e - lo,
{
    if e > lo && !is_sep_in(p[e - 1], platform, v) {
        lemma_last_sep_bounds(p, platform, v, lo, e - 1);
    }
}

proof fn lemma_trim_back_bounds(p: Seq<char>, platform: Platform, v: bool, lo: int, e: int)
    requires
        0 <= lo <= e <= p.len(),
    ensures
        lo <= trim_back(p, platform, v, lo, e) <= e,
    decreases e - lo,
{
    if e > lo {
        lemma_last_sep_bounds(p, platform, v, lo, e);
        let k = last_sep(p, platform, v, lo, e);
        if is_empty_piece(p.subrange(k + 1, e), v) {
            lemma_trim_back_bounds(
                p,
                platform,
                v,
                lo,
                if lo <= k < e {
                    k
                } else {
                    lo
                },
            );
        }
    }
}

/// The last separator in `p[lo..e]`, or `lo - 1` as an `Option`.
fn last_sep_exec(p: &Vec<char>, platform: Platform, v: bool, lo: usize, e: usize) -> (r: Option<usize>)
    requires
        lo <= e <= p@.len(),
    ensures
        match r {
            Some(k) => k as int == last_sep(p@, platform, v, lo as int, e as int) && lo <= k < e,
            None => last_sep(p@, platform, v, lo as int, e as int) == lo - 1,
        },
{
    let mut j = e;
    while j > lo && !is_sep_exec(p[j - 1], platform, v)
        invariant
            lo <= j <= e,
            e <= p@.len(),
            last_sep(p@, platform, v, lo as int, j as int) == last_sep(p@, platform, v, lo as int, e as int),
        decreases j,
    {
        j -= 1;
    }
    if j > lo {
        Some(j - 1)
    } else {
        None
    }
}

/// Whether `p[s..e]` is no component.
fn is_empty_piece_exec(p: &Vec<char>, v: bool, s: usize, e: usize) -> (r: bool)
    requires
        s <= e <= p@.len(),
    ensures
        r == is_empty_piece(p@.subrange(s as int, e as int), v),
{
    let ghost piece = p@.subrange(s as int, e as int);
    if s == e {
        return true;
    }
    let r = !v && e - s == 1 && p[s] == '.';
    assert(r == (!v && piece == seq!['.'])) by {
        if e - s == 1 && p@[s as int] == '.' {
            assert(piece =~= seq!['.']);
        }
        if piece == seq!['.'] {
            assert(piece.len() == 1 && piece[0] == p@[s as int]);
        }
    }
    r
}

/// `trim_back` of `p` from `e`.
fn trim_back_exec(p: &Vec<char>, platform: Platform, v: bool, lo: usize, e: usize) -> (r: usize)
    requires
        lo <= e <= p@.len(),
    ensures
        r as int == trim_back(p@, platform, v, lo as int, e as int),
        lo <= r <= e,
{
    let mut e2 = e;
    loop
        invariant
            lo <= e2 <= e <= p@.len(),
            trim_back(p@, platform, v, lo as int, e2 as int) == trim_back(p@, platform, v, lo as int, e as int),
        decreases e2,
    {
        if e2 <= lo {
            return e2;
        }
        let k = last_sep_exec(p, platform, v, lo, e2);
        let from = match k {
            Some(k) => k + 1,
            None => lo,
        };
        if is_empty_piece_exec(p, v, from, e2) {
            e2 = match k {
                Some(k) => k,
                None => lo,
            };
        } else {
            return e2;
        }
    }
}

/// The parent of path `p`, as `Path::parent` gives it.
pub fn path_parent_exec(p: &String, platform: Platform) -> (r: Option<String>)
    ensures
        opt_view(r) == path_parent(p@, platform),
{
    let cs = string_chars(p);
    let (kind, _f1, _f2, l) = if platform.is_windows() {
        win_prefix_exec(&cs)
    } else {
        (0u8, Vec::new(), Vec::new(), 0usize)
    };
    assert(kind as int == prefix_of(cs@, platform).0 && l as int == prefix_of(cs@, platform).3);
    proof {
        lemma_prefix_bounds(cs@, platform);
    }
    let verbatim = 2 <= kind && kind <= 4;
    let phys = l < cs.len() && is_sep_exec(cs[l], platform, false);
    let cur_dir = !phys && (kind == 0 || kind == 1) && l < cs.len() && cs[l] == '.' && (l + 1 == cs.len()
        || is_sep_exec(cs[l + 1], platform, false));
    let lo = l + (if phys {
        1
    } else {
        0
    }) + (if cur_dir {
        1
    } else {
        0
    });
    assert(lo as int == back_floor(cs@, platform));
    let e1 = trim_back_exec(&cs, platform, verbatim, lo, cs.len());
    if e1 <= lo {
        if cur_dir {
            Some(string_of(&subvec(&cs, 0, l)))
        } else {
            None
        }
    } else {
        let k = last_sep_exec(&cs, platform, verbatim, lo, e1);
        let e2 = match k {
            Some(k) => k,
            None => lo,
        };
        let e3 = trim_back_exec(&cs, platform, verbatim, lo, e2);
        Some(string_of(&subvec(&cs, 0, e3)))
    }
}

/// Being one path is an equivalence: every path is itself, and the
/// relation is symmetric and transitive.
pub proof fn law_same_path_equivalence(p: Seq<char>, q: Seq<char>, s: Seq<char>, platform: Platform)
    ensures
        same_path_spec(p, p, platform),
        same_path_spec(p, q, platform) == same_path_spec(q, p, platform),
        same_path_spec(p, q, platform) && same_path_spec(q, s, platform) ==> same_path_spec(p, s, platform),
{
}

} // verus!
