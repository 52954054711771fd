//! Finding the `code` command-line launcher of VSCode.
use vstd::prelude::*;

use crate::platform::Platform;
use crate::path_identity::{is_rooted, is_verbatim, part_views, path_layout, path_parts, prefix_of};
use crate::running::{has_drive_prefix, is_path_separator};
use crate::text::{chars_of, opt_view, string_chars, string_of, subvec};

verus! {

/// The separator that `Path::join` puts between two parts on `platform`.
pub open spec fn main_separator(platform: Platform) -> char {
    if platform == Platform::Windows {
        '\\'
    } else {
        '/'
    }
}

/// A relative name: it does not start with a separator, nor on Windows with
/// a drive.
pub open spec fn is_relative_name(name: Seq<char>, platform: Platform) -> bool {
    &&& !(name.len() > 0 && is_path_separator(name[0], platform))
    &&& !(platform == Platform::Windows && has_drive_prefix(name))
}

/// The components of a verbatim path once the components `pieces` of a
/// relative name are pushed onto its components `buf`: a `..` drops a last
/// name (not a `.` or `..`), every other piece is added.
pub open spec fn pushed_parts(buf: Seq<Seq<char>>, pieces: Seq<Seq<char>>) -> Seq<Seq<char>>
    decreases pieces.len(),
{
    if pieces.len() == 0 {
        buf
    } else {
        let b2 = pushed_parts(buf, pieces.drop_last());
        let c = pieces.last();
        if c == seq!['.', '.'] {
            if b2.len() > 0 && b2.last() != seq!['.'] && b2.last() != seq!['.', '.'] {
                b2.drop_last()
            } else {
                b2
            }
        } else {
            b2.push(c)
        }
    }
}

/// A verbatim `base` (`\\?\...`) joined with `name`, as `PathBuf::push`
/// does it: the path is rebuilt from its prefix and its components, with
/// the name's components pushed, and `\` between them.
pub open spec fn verbatim_joined(base: Seq<char>, name: Seq<char>, platform: Platform) -> Seq<char> {
    let cs = pushed_parts(path_parts(base, platform), path_parts(name, platform));
    base.subrange(0, prefix_of(base, platform).3) + (if is_rooted(base, platform) || cs.len() > 0 {
        seq!['\\']
    } else {
        seq![]
    }) + joined_with(cs, '\\')
}

/// `base` joined with a relative `name`, as `Path::join` does it: no
/// separator after an empty base, after a base that ends in one, or after a
/// bare Windows drive `X:`; the platform's separator otherwise. A verbatim
/// Windows base is rebuilt from its components instead.
pub open spec fn joined_path(base: Seq<char>, name: Seq<char>, platform: Platform) -> Seq<char> {
    if platform == Platform::Windows && is_verbatim(base, platform) && name.len() > 0 {
        verbatim_joined(base, name, platform)
    } else if base.len() == 0 {
        name
    } else if is_path_separator(base.last(), platform) || (platform == Platform::Windows
        && base.len() == 2 && has_drive_prefix(base)) {
        base + name
    } else {
        base + seq![main_separator(platform)] + name
    }
}

/// The pieces of `s` between occurrences of `sep`, as `str::split` yields
/// them (an empty text is one empty piece).
pub open spec fn split_pieces(s: Seq<char>, sep: char) -> Seq<Seq<char>>
    decreases s.len(),
{
    if s.len() == 0 {
        seq![Seq::<char>::empty()]
    } else {
        let rest = split_pieces(s.drop_last(), sep);
        if s.last() == sep {
            rest.push(Seq::<char>::empty())
        } else {
            rest.update(rest.len() - 1, rest.last().push(s.last()))
        }
    }
}

/// The separator of the entries of `PATH` on `platform`.
pub open spec fn path_list_separator(platform: Platform) -> char {
    if platform == Platform::Windows {
        ';'
    } else {
        ':'
    }
}

/// The names the launcher goes by on `platform`, in the order they are tried.
pub open spec fn exe_names(platform: Platform) -> Seq<Seq<char>> {
    if platform == Platform::Windows {
        seq!["code.cmd"@, "code.exe"@]
    } else {
        seq!["code"@]
    }
}

/// Each directory of `dirs` joined with each launcher name, directory by
/// directory.
pub open spec fn dir_probes(dirs: Seq<Seq<char>>, platform: Platform) -> Seq<Seq<char>>
    decreases dirs.len(),
{
    if dirs.len() == 0 {
        seq![]
    } else {
        dir_probes(dirs.drop_last(), platform) + exe_names(platform).map_values(
            |n: Seq<char>| joined_path(dirs.last(), n, platform),
        )
    }
}

/// Every path that the resolver tries, in order: the candidates, then each
/// entry of `PATH` with each launcher name.
pub open spec fn code_probes(candidates: Seq<Seq<char>>, env_path: Option<Seq<char>>, platform: Platform) -> Seq<Seq<char>> {
    match env_path {
        Some(p) => candidates + dir_probes(split_pieces(p, path_list_separator(platform)), platform),
        None => candidates,
    }
}

/// The texts of a list of strings.
pub open spec fn string_views(v: Seq<String>) -> Seq<Seq<char>> {
    v.map_values(|s: String| s@)
}

/// Where VSCode installs its launcher by default on `platform`; on
/// Windows the per-user install under the local application-data folder
/// comes first, where that folder is known.
pub open spec fn default_candidate_paths(platform: Platform, local_app_data: Option<Seq<char>>) -> Seq<Seq<char>> {
    if platform == Platform::Windows {
        let system = seq!["C:\\Program Files\\Microsoft VS Code\\bin\\code.cmd"@];
        match local_app_data {
            Some(d) => seq![joined_path(d, "Programs/Microsoft VS Code/bin/code.cmd"@, platform)] + system,
            None => system,
        }
    } else if platform == Platform::MacOs {
        seq!["/Applications/Visual Studio Code.app/Contents/Resources/app/bin/code"@]
    } else {
        seq!["/usr/bin/code"@, "/usr/local/bin/code"@, "/snap/bin/code"@]
    }
}

/// Calls `Path::is_file`: whether a regular file is at `path` at this
/// moment. The answer depends on the disk; nothing is claimed of it.
#[verifier::external_body]
pub(crate) fn is_file(path: &str) -> bool {
    std::path::Path::new(path).is_file()
}

/// `out` with the characters `s` added.
fn append_chars(out: &mut Vec<char>, s: &Vec<char>)
    ensures
        final(out)@ == old(out)@ + s@,
{
    let ghost start = out@;
    let mut i: usize = 0;
    while i < s.len()
        invariant
            i <= s@.len(),
            out@ == start + s@.subrange(0, i as int),
        decreases s@.len() - i,
    {
        out.push(s[i]);
        i += 1;
        assert(out@ =~= start + s@.subrange(0, i as int));
    }
    assert(s@.subrange(0, s@.len() as int) =~= s@);
}

/// Whether a character vector holds `.` or `..`.
fn is_dot_piece(c: &Vec<char>) -> (r: (bool, bool))
    ensures
        r.0 == (c@ == seq!['.']),
        r.1 == (c@ == seq!['.', '.']),
{
    let dot = c.len() == 1 && c[0] == '.';
    let dotdot = c.len() == 2 && c[0] == '.' && c[1] == '.';
    proof {
        if c@.len() == 1 && c@[0] == '.' {
            assert(c@ =~= seq!['.']);
        }
        if c@.len() == 2 && c@[0] == '.' && c@[1] == '.' {
            assert(c@ =~= seq!['.', '.']);
        }
    }
    (dot, dotdot)
}

/// `pushed_parts` of `buf` and `pieces`.
fn pushed_parts_exec(buf: Vec<Vec<char>>, pieces: &Vec<Vec<char>>) -> (r: Vec<Vec<char>>)
    ensures
        part_views(r@) == pushed_parts(part_views(buf@), part_views(pieces@)),
{
    let ghost b0 = part_views(buf@);
    let ghost pv = part_views(pieces@);
    let mut out = buf;
    let mut i: usize = 0;
    assert(pv.subrange(0, 0) =~= Seq::<Seq<char>>::empty());
    while i < pieces.len()
        invariant
            i <= pieces@.len(),
            pv == part_views(pieces@),
            part_views(out@) == pushed_parts(b0, pv.subrange(0, i as int)),
        decreases pieces@.len() - i,
    {
        let ghost pre = part_views(out@);
        assert(pv.subrange(0, i + 1).drop_last() =~= pv.subrange(0, i as int));
        assert(pv.subrange(0, i + 1).last() == pieces@[i as int]@);
        let c = &pieces[i];
        let (_, dotdot) = is_dot_piece(c);
        if dotdot {
            let n = out.len();
            if n > 0 {
                let (ldot, ldotdot) = is_dot_piece(&out[n - 1]);
                assert(pre.last() == out@[n - 1]@);
                if !ldot && !ldotdot {
                    out.pop();
                    assert(part_views(out@) =~= pre.drop_last());
                }
            }
        } else {
            out.push(c.clone());
            assert(part_views(out@) =~= pre.push(c@));
        }
        i += 1;
    }
    assert(pv.subrange(0, pv.len() as int) =~= pv);
    out
}

/// The pieces `cs` joined with `\` between them.
fn joined_exec(cs: &Vec<Vec<char>>) -> (r: Vec<char>)
    ensures
        r@ == joined_with(part_views(cs@), '\\'),
{
    let ghost pv = part_views(cs@);
    let mut out: Vec<char> = Vec::new();
    let mut i: usize = 0;
    assert(joined_with(pv.subrange(0, 0), '\\') =~= Seq::<char>::empty());
    while i < cs.len()
        invariant
            i <= cs@.len(),
            pv == part_views(cs@),
            out@ == joined_with(pv.subrange(0, i as int), '\\'),
        decreases cs@.len() - i,
    {
        let ghost pre = out@;
        let ghost next = pv.subrange(0, i + 1);
        assert(next.drop_last() =~= pv.subrange(0, i as int));
        assert(next.last() == cs@[i as int]@);
        if i > 0 {
            out.push('\\');
        }
        append_chars(&mut out, &cs[i]);
        if i == 0 {
            assert(next =~= seq![cs@[0]@]);
            assert(out@ =~= joined_with(next, '\\'));
        } else {
            assert(out@ =~= joined_with(next, '\\'));
        }
        i += 1;
    }
    assert(pv.subrange(0, pv.len() as int) =~= pv);
    out
}

/// `base` joined with the relative `name`, as `Path::join` does it.
pub fn join_path(base: &String, name: &String, platform: Platform) -> (r: String)
    requires
        is_relative_name(name@, platform),
    ensures
        r@ == joined_path(base@, name@, platform),
{
    let b = string_chars(base);
    let n = string_chars(name);
    if platform.is_windows() && n.len() > 0 {
        let (verbatim, l, rooted, parts) = path_layout(&b, platform);
        if verbatim {
            let (_, _, _, pieces) = path_layout(&n, platform);
            let cs = pushed_parts_exec(parts, &pieces);
            let mut out = subvec(&b, 0, l);
            if rooted || cs.len() > 0 {
                out.push('\\');
            }
            let joined = joined_exec(&cs);
            let ghost before = out@;
            append_chars(&mut out, &joined);
            assert(out@ =~= joined_path(base@, name@, platform));
            return string_of(&out);
        }
    }
    let mut out: Vec<char> = Vec::new();
    let mut i: usize = 0;
    while i < b.len()
        invariant
            i <= b@.len(),
            out@ == b@.subrange(0, i as int),
        decreases b@.len() - i,
    {
        out.push(b[i]);
        i += 1;
        assert(out@ =~= b@.subrange(0, i as int));
    }
    assert(b@.subrange(0, b@.len() as int) =~= b@);
    if b.len() > 0 {
        let last = b[b.len() - 1];
        let is_sep = last == '/' || (platform.is_windows() && last == '\\');
        let bare_drive = platform.is_windows() && b.len() == 2 && (('A' <= b[0] && b[0] <= 'Z') || (
        'a' <= b[0] && b[0] <= 'z')) && b[1] == ':';
        if !is_sep && !bare_drive {
            if platform.is_windows() {
                out.push('\\');
            } else {
                out.push('/');
            }
        }
    }
    let ghost mid = out@;
    let mut j: usize = 0;
    while j < n.len()
        invariant
            j <= n@.len(),
            out@ == mid + n@.subrange(0, j as int),
        decreases n@.len() - j,
    {
        out.push(n[j]);
        j += 1;
        assert(out@ =~= mid + n@.subrange(0, j as int));
    }
    assert(n@.subrange(0, n@.len() as int) =~= n@);
    assert(out@ =~= joined_path(base@, name@, platform));
    string_of(&out)
}

/// The pieces of `s` between occurrences of `sep`, as `str::split`.
pub fn split_on(s: &str, sep: char) -> (r: Vec<String>)
    ensures
        string_views(r@) == split_pieces(s@, sep),
{
    let cs = chars_of(s);
    let mut done: Vec<String> = Vec::new();
    let mut cur: Vec<char> = Vec::new();
    let mut i: usize = 0;
    while i < cs.len()
        invariant
            i <= cs@.len(),
            cs@ == s@,
            string_views(done@).push(cur@) == split_pieces(cs@.subrange(0, i as int), sep),
        decreases cs@.len() - i,
    {
        let ghost before = cs@.subrange(0, i as int);
        let ghost after = cs@.subrange(0, i + 1);
        assert(after.drop_last() =~= before);
        assert(after.last() == cs@[i as int]);
        let ghost old_done = string_views(done@);
        let ghost old_cur = cur@;
        let c = cs[i];
        if c == sep {
            let piece = string_of(&cur);
            done.push(piece);
            cur = Vec::new();
            assert(string_views(done@) =~= old_done.push(old_cur));
            assert(string_views(done@).push(cur@) =~= old_done.push(old_cur).push(Seq::<char>::empty()));
        } else {
            cur.push(c);
            assert(string_views(done@).push(cur@) =~= old_done.push(old_cur).update(
                old_done.len() as int,
                old_cur.push(c),
            ));
        }
        i += 1;
    }
    assert(cs@.subrange(0, cs@.len() as int) =~= cs@);
    let ghost old_done = string_views(done@);
    let last = string_of(&cur);
    done.push(last);
    assert(string_views(done@) =~= old_done.push(cur@));
    done
}

/// The launcher names on `platform`.
fn exe_name_list(platform: Platform) -> (r: Vec<String>)
    ensures
        string_views(r@) == exe_names(platform),
        forall|k: int| 0 <= k < r@.len() ==> is_relative_name(#[trigger] r@[k]@, platform),
{
    let mut r: Vec<String> = Vec::new();
    if platform.is_windows() {
        r.push(string_of(&chars_of("code.cmd")));
        r.push(string_of(&chars_of("code.exe")));
        proof {
            reveal_strlit("code.cmd");
            reveal_strlit("code.exe");
        }
    } else {
        r.push(string_of(&chars_of("code")));
        proof {
            reveal_strlit("code");
        }
    }
    assert(string_views(r@) =~= exe_names(platform));
    r
}

/// Every path that the resolver tries, in order: the candidates, then each
/// entry of `PATH` (split at `;` on Windows, `:` elsewhere) joined with each
/// launcher name (`code.cmd`, `code.exe` on Windows; `code` elsewhere).
pub fn code_binary_probes(candidates: &[String], env_path: Option<&str>, platform: Platform) -> (r: Vec<String>)
    ensures
        string_views(r@) == code_probes(string_views(candidates@), match env_path {
            Some(p) => Some(p@),
            None => None,
        }, platform),
{
    let mut out: Vec<String> = Vec::new();
    let mut i: usize = 0;
    while i < candidates.len()
        invariant
            i <= candidates@.len(),
            string_views(out@) == string_views(candidates@).subrange(0, i as int),
        decreases candidates@.len() - i,
    {
        let ghost prev = string_views(out@);
        out.push(candidates[i].clone());
        assert(string_views(out@) =~= prev.push(candidates@[i as int]@));
        assert(string_views(candidates@).subrange(0, i + 1) =~= string_views(candidates@).subrange(0, i as int).push(candidates@[i as int]@));
        i += 1;
    }
    assert(string_views(candidates@).subrange(0, candidates@.len() as int) =~= string_views(candidates@));
    match env_path {
        None => out,
        Some(p) => {
            let sep = if platform.is_windows() {
                ';'
            } else {
                ':'
            };
            let dirs = split_on(p, sep);
            let names = exe_name_list(platform);
            let ghost base = string_views(out@);
            let ghost dv = string_views(dirs@);
            let mut d: usize = 0;
            while d < dirs.len()
                invariant
                    d <= dirs@.len(),
                    dv == string_views(dirs@),
                    string_views(names@) == exe_names(platform),
                    forall|k: int| 0 <= k < names@.len() ==> is_relative_name(#[trigger] names@[k]@, platform),
                    string_views(out@) == base + dir_probes(dv.subrange(0, d as int), platform),
                decreases dirs@.len() - d,
            {
                let ghost before = dv.subrange(0, d as int);
                let ghost after = dv.subrange(0, d + 1);
                assert(after.drop_last() =~= before);
                assert(after.last() == dirs@[d as int]@);
                let ghost start = string_views(out@);
                let ghost expected = exe_names(platform).map_values(
                    |n: Seq<char>| joined_path(dirs@[d as int]@, n, platform),
                );
                let mut k: usize = 0;
                while k < names.len()
                    invariant
                        k <= names@.len(),
                        d < dirs@.len(),
                        string_views(names@) == exe_names(platform),
                        forall|k: int| 0 <= k < names@.len() ==> is_relative_name(#[trigger] names@[k]@, platform),
                        expected == exe_names(platform).map_values(
                            |n: Seq<char>| joined_path(dirs@[d as int]@, n, platform),
                        ),
                        string_views(out@) == start + expected.subrange(0, k as int),
                    decreases names@.len() - k,
                {
                    let ghost prev = string_views(out@);
                    assert(string_views(names@)[k as int] == names@[k as int]@);
                    let j = join_path(&dirs[d], &names[k], platform);
                    out.push(j);
                    assert(string_views(out@) =~= prev.push(j@));
                    assert(expected[k as int] == j@);
                    assert(expected.subrange(0, k + 1) =~= expected.subrange(0, k as int).push(expected[k as int]));
                    k += 1;
                }
                assert(expected.subrange(0, expected.len() as int) =~= expected);
                assert(string_views(out@) =~= base + dir_probes(after, platform));
                d += 1;
            }
            assert(dv.subrange(0, dv.len() as int) =~= dv);
            out
        },
    }
}

/// The first of `probes` whose answer in `found` is `true`, looking from
/// index `i` on; answers missing at the end count as not found.
pub open spec fn first_flagged_from(probes: Seq<Seq<char>>, found: Seq<bool>, i: int) -> Option<Seq<char>>
    decreases probes.len() - i,
{
    if i < 0 || i >= probes.len() || i >= found.len() {
        None
    } else if found[i] {
        Some(probes[i])
    } else {
        first_flagged_from(probes, found, i + 1)
    }
}

/// The first of `probes` whose answer in `found` is `true`.
pub open spec fn first_flagged(probes: Seq<Seq<char>>, found: Seq<bool>) -> Option<Seq<char>> {
    first_flagged_from(probes, found, 0)
}

/// What `first_flagged_from` gives is one of the probes from `i` on, and
/// every probe before it (from `i`) was answered `false`.
pub proof fn lemma_first_flagged_from(probes: Seq<Seq<char>>, found: Seq<bool>, i: int)
    requires
        0 <= i,
    ensures
        match first_flagged_from(probes, found, i) {
            Some(p) => exists|k: int|
                i <= k < probes.len() && k < found.len() && found[k] && probes[k] == p && (forall|j: int|
                    i <= j < k ==> !#[trigger] found[j]),
            None => forall|j: int| i <= j < probes.len() && j < found.len() ==> !#[trigger] found[j],
        },
    decreases probes.len() - i,
{
    if i >= probes.len() || i >= found.len() {
    } else if found[i] {
        assert(i <= i < probes.len() && i < found.len() && found[i] && probes[i] == probes[i]);
    } else {
        lemma_first_flagged_from(probes, found, i + 1);
        match first_flagged_from(probes, found, i + 1) {
            Some(p) => {
                let k = choose|k: int|
                    i + 1 <= k < probes.len() && k < found.len() && found[k] && probes[k] == p && (
                    forall|j: int| i + 1 <= j < k ==> !#[trigger] found[j]);
                assert(forall|j: int| i <= j < k ==> !#[trigger] found[j]);
            },
            None => {},
        }
    }
}

/// Decides the outcome of a search over `probes` given, for each probe
/// that was tried, whether something was found there: the first probe
/// answered `true`, or none.
pub fn first_found(probes: &[String], found: &[bool]) -> (r: Option<String>)
    ensures
        opt_view(r) == first_flagged(string_views(probes@), found@),
{
    let ghost ps = string_views(probes@);
    let mut i: usize = 0;
    while i < probes.len() && i < found.len()
        invariant
            i <= probes@.len(),
            ps == string_views(probes@),
            first_flagged_from(ps, found@, i as int) == first_flagged(ps, found@),
        decreases probes@.len() - i,
    {
        if found[i] {
            let p = probes[i].clone();
            assert(ps[i as int] == probes@[i as int]@);
            return Some(p);
        }
        i += 1;
    }
    None
}

/// `b` is an answer that `Path::is_file` gave when asked about path `p`.
pub closed spec fn is_file_answer(p: Seq<char>, b: bool) -> bool {
    exists|s: &str| s@ == p && #[trigger] call_ensures(is_file, (s,), b)
}

/// `found` holds what `Path::is_file` answered for the first paths of
/// `paths`, asked in order until one is a file: each answer is the one
/// given for its path; all but the last are `false`; and the asking
/// stopped early only at a `true`.
pub open spec fn asked_until_found(paths: Seq<Seq<char>>, found: Seq<bool>) -> bool {
    &&& found.len() <= paths.len()
    &&& forall|i: int| 0 <= i < found.len() ==> is_file_answer(paths[i], #[trigger] found[i])
    &&& forall|i: int| 0 <= i < found.len() - 1 ==> !#[trigger] found[i]
    &&& found.len() < paths.len() ==> found.len() > 0 && found.last()
}

/// `r` is what a search over `paths` gives: asked in order until a file is
/// found, the first path that is a file, or none.
pub open spec fn search_outcome(paths: Seq<Seq<char>>, r: Option<Seq<char>>) -> bool {
    exists|found: Seq<bool>| #[trigger] asked_until_found(paths, found) && r == first_flagged(paths, found)
}

/// Asks `Path::is_file` about one path.
pub(crate) fn ask_is_file(p: &String) -> (b: bool)
    ensures
        is_file_answer(p@, b),
{
    let s = p.as_str();
    let b = is_file(s);
    assert(call_ensures(is_file, (s,), b));
    b
}

/// Asks `Path::is_file` about each of `paths` in order, until one is a
/// file; gives the answers.
pub(crate) fn ask_is_file_in_order(paths: &Vec<String>) -> (found: Vec<bool>)
    ensures
        asked_until_found(string_views(paths@), found@),
{
    let ghost ps = string_views(paths@);
    let mut found: Vec<bool> = Vec::new();
    let mut hit = false;
    while found.len() < paths.len() && !hit
        invariant
            ps == string_views(paths@),
            found@.len() <= paths@.len(),
            forall|i: int| 0 <= i < found@.len() ==> is_file_answer(ps[i], #[trigger] found@[i]),
            forall|i: int| 0 <= i < found@.len() - 1 ==> !#[trigger] found@[i],
            hit == (found@.len() > 0 && found@.last()),
        decreases paths@.len() - found@.len(),
    {
        let k = found.len();
        let s = paths[k].as_str();
        let b = is_file(s);
        assert(call_ensures(is_file, (s,), b));
        assert(s@ == ps[k as int]);
        assert(is_file_answer(ps[k as int], b));
        found.push(b);
        hit = b;
        assert forall|i: int| 0 <= i < found@.len() implies is_file_answer(ps[i], #[trigger] found@[i]) by {
            if i < k {
                assert(found@[i] == found@[i]);
            }
        }
    }
    found
}

/// Resolves the launcher: asks `Path::is_file` about the probes (the
/// candidates, then each `PATH` entry with each launcher name) in order,
/// stopping at the first at which a file exists, and gives that one, or
/// none. Which probes are files is up to the disk; the contract says the
/// result is the first probe that `Path::is_file` answered `true` for,
/// every earlier probe having been asked and answered `false`.
pub fn resolve_code_binary_from(candidates: &[String], env_path: Option<&str>, platform: Platform) -> (r: Option<String>)
    ensures
        match r {
            Some(p) => code_probes(string_views(candidates@), match env_path {
                Some(e) => Some(e@),
                None => None,
            }, platform).contains(p@),
            None => true,
        },
        code_probes(string_views(candidates@), match env_path {
            Some(e) => Some(e@),
            None => None,
        }, platform).len() == 0 ==> r is None,
        search_outcome(
            code_probes(string_views(candidates@), match env_path {
                Some(e) => Some(e@),
                None => None,
            }, platform),
            opt_view(r),
        ),
{
    let probes = code_binary_probes(candidates, env_path, platform);
    let ghost all = code_probes(string_views(candidates@), match env_path {
        Some(e) => Some(e@),
        None => None,
    }, platform);
    let found = ask_is_file_in_order(&probes);
    let r = first_found(probes.as_slice(), found.as_slice());
    proof {
        lemma_first_flagged_from(all, found@, 0);
        assert(asked_until_found(all, found@));
    }
    r
}

/// A search asks each path in turn as long as the earlier ones are no
/// files: where every path before `i` was answered `false`, path `i` was
/// asked; if it is a file, it is the result.
proof fn lemma_search_reaches(paths: Seq<Seq<char>>, found: Seq<bool>, i: int)
    requires
        asked_until_found(paths, found),
        0 <= i < paths.len(),
        forall|j: int| 0 <= j < i ==> j < found.len() && !found[j],
    ensures
        i < found.len(),
        found[i] ==> first_flagged(paths, found) == Some(paths[i]),
{
    if found.len() <= i {
        if found.len() > 0 {
            assert(!found[found.len() - 1]);
        }
    }
    lemma_first_flagged_prefix_false(paths, found, 0, i);
}

proof fn lemma_first_flagged_prefix_false(paths: Seq<Seq<char>>, found: Seq<bool>, k: int, i: int)
    requires
        0 <= k <= i < paths.len(),
        i < found.len(),
        forall|j: int| 0 <= j < i ==> !found[j],
    ensures
        found[i] ==> first_flagged_from(paths, found, k) == Some(paths[i]),
    decreases i - k,
{
    if k < i {
        lemma_first_flagged_prefix_false(paths, found, k + 1, i);
    }
}

/// The launcher found is the first probe at which a file exists: where a
/// candidate is a file and no earlier probe was, the candidate is the
/// result, whatever `PATH` holds; every candidate is asked about until one
/// is a file; and where no probe is a file, all were asked and there is
/// no result.
pub proof fn law_resolve_gives_first_existing_candidate(
    candidates: Seq<Seq<char>>,
    env_path: Option<Seq<char>>,
    platform: Platform,
    found: Seq<bool>,
    r: Option<Seq<char>>,
)
    requires
        asked_until_found(code_probes(candidates, env_path, platform), found),
        r == first_flagged(code_probes(candidates, env_path, platform), found),
    ensures
        forall|i: int|
            0 <= i < candidates.len() && (forall|j: int| 0 <= j < i ==> j < found.len() && !found[j]) ==> i
                < found.len() && (found[i] ==> r == Some(#[trigger] candidates[i])),
        r is None ==> found.len() == code_probes(candidates, env_path, platform).len() && forall|j: int|
            0 <= j < found.len() ==> !#[trigger] found[j],
{
    let probes = code_probes(candidates, env_path, platform);
    law_candidates_come_first(candidates, env_path, platform);
    assert forall|i: int|
        0 <= i < candidates.len() && (forall|j: int| 0 <= j < i ==> j < found.len() && !found[j]) implies i
            < found.len() && (found[i] ==> r == Some(#[trigger] candidates[i])) by {
        assert(probes.subrange(0, candidates.len() as int)[i] == probes[i]);
        lemma_search_reaches(probes, found, i);
    }
    lemma_search_none(probes, found);
}

/// A search with no result asked about every path and found no file.
pub proof fn lemma_search_none(paths: Seq<Seq<char>>, found: Seq<bool>)
    requires
        asked_until_found(paths, found),
    ensures
        first_flagged(paths, found) is None ==> found.len() == paths.len() && forall|j: int|
            0 <= j < found.len() ==> !#[trigger] found[j],
{
    lemma_first_flagged_from(paths, found, 0);
    if first_flagged(paths, found) is None {
        if found.len() < paths.len() {
            assert(found[found.len() - 1]);
        }
    }
}

/// The first of `paths` that a search finds to be a file: where every path
/// before `i` was answered `false` and path `i` is a file, it is the result.
pub proof fn law_search_gives_first_existing(paths: Seq<Seq<char>>, found: Seq<bool>, i: int)
    requires
        asked_until_found(paths, found),
        0 <= i < paths.len(),
        forall|j: int| 0 <= j < i ==> j < found.len() && !found[j],
    ensures
        i < found.len(),
        found[i] ==> first_flagged(paths, found) == Some(paths[i]),
        !found[i] && i == paths.len() - 1 ==> first_flagged(paths, found) is None,
{
    lemma_search_reaches(paths, found, i);
    lemma_search_none(paths, found);
    if !found[i] && i == paths.len() - 1 {
        lemma_first_flagged_from(paths, found, 0);
    }
}

/// Where VSCode installs its launcher by default: on Windows the per-user
/// install under the local application-data folder (where known), then the
/// system-wide one; on macOS the app bundle; on Linux `/usr/bin`,
/// `/usr/local/bin` and `/snap/bin`.
pub fn default_candidates(platform: Platform, local_app_data: Option<String>) -> (r: Vec<String>)
    ensures
        string_views(r@) == default_candidate_paths(platform, match local_app_data {
            Some(d) => Some(d@),
            None => None,
        }),
{
    let mut out: Vec<String> = Vec::new();
    match platform {
        Platform::Windows => {
            match &local_app_data {
                Some(d) => {
                    let rel = string_of(&chars_of("Programs/Microsoft VS Code/bin/code.cmd"));
                    proof {
                        reveal_strlit("Programs/Microsoft VS Code/bin/code.cmd");
                    }
                    out.push(join_path(d, &rel, platform));
                },
                None => {},
            }
            out.push(string_of(&chars_of("C:\\Program Files\\Microsoft VS Code\\bin\\code.cmd")));
        },
        Platform::MacOs => {
            out.push(
                string_of(&chars_of("/Applications/Visual Studio Code.app/Contents/Resources/app/bin/code")),
            );
        },
        Platform::Linux => {
            out.push(string_of(&chars_of("/usr/bin/code")));
            out.push(string_of(&chars_of("/usr/local/bin/code")));
            out.push(string_of(&chars_of("/snap/bin/code")));
        },
    }
    assert(string_views(out@) =~= default_candidate_paths(platform, match local_app_data {
        Some(d) => Some(d@),
        None => None,
    }));
    out
}


/// The pieces joined back with `sep` between them.
pub open spec fn joined_with(pieces: Seq<Seq<char>>, sep: char) -> Seq<char>
    decreases pieces.len(),
{
    if pieces.len() <= 1 {
        if pieces.len() == 0 {
            seq![]
        } else {
            pieces[0]
        }
    } else {
        joined_with(pieces.drop_last(), sep) + seq![sep] + pieces.last()
    }
}

proof fn lemma_joined_extend_last(pieces: Seq<Seq<char>>, sep: char, c: char)
    requires
        pieces.len() >= 1,
    ensures
        joined_with(pieces.update(pieces.len() - 1, pieces.last().push(c)), sep) == joined_with(pieces, sep).push(c),
{
    let u = pieces.update(pieces.len() - 1, pieces.last().push(c));
    if pieces.len() == 1 {
    } else {
        assert(u.drop_last() =~= pieces.drop_last());
        assert(joined_with(u, sep) =~= joined_with(pieces, sep).push(c));
    }
}

proof fn lemma_split_nonempty(s: Seq<char>, sep: char)
    ensures
        split_pieces(s, sep).len() >= 1,
    decreases s.len(),
{
    if s.len() > 0 {
        lemma_split_nonempty(s.drop_last(), sep);
    }
}

/// Splitting a text at a separator and joining the pieces back with it
/// gives the text again.
pub proof fn law_split_join_round_trip(s: Seq<char>, sep: char)
    ensures
        joined_with(split_pieces(s, sep), sep) == s,
    decreases s.len(),
{
    if s.len() > 0 {
        let q = s.drop_last();
        law_split_join_round_trip(q, sep);
        lemma_split_nonempty(q, sep);
        let rest = split_pieces(q, sep);
        if s.last() == sep {
            let pushed = rest.push(Seq::<char>::empty());
            assert(pushed.drop_last() =~= rest);
            assert(joined_with(pushed, sep) =~= q + seq![sep] + Seq::<char>::empty());
            assert(s =~= q.push(sep));
        } else {
            lemma_joined_extend_last(rest, sep, s.last());
            assert(s =~= q.push(s.last()));
        }
    }
}

/// A joined path ends with the name it was joined with and starts with
/// its base, except where a verbatim Windows base is rebuilt from its
/// components (`\\?\C:\a\\b` joined with `x` is `\\?\C:\a\b\x`).
pub proof fn law_join_keeps_parts(base: Seq<char>, name: Seq<char>, platform: Platform)
    requires
        !(platform == Platform::Windows && is_verbatim(base, platform) && name.len() > 0),
    ensures
        joined_path(base, name, platform).subrange(
            joined_path(base, name, platform).len() - name.len(),
            joined_path(base, name, platform).len() as int,
        ) == name,
        joined_path(base, name, platform).subrange(0, base.len() as int) == base,
{
    let j = joined_path(base, name, platform);
    assert(j.subrange(j.len() - name.len(), j.len() as int) =~= name);
    assert(j.subrange(0, base.len() as int) =~= base);
}

/// The resolver tries the given candidates first, in their order.
pub proof fn law_candidates_come_first(candidates: Seq<Seq<char>>, env_path: Option<Seq<char>>, platform: Platform)
    ensures
        code_probes(candidates, env_path, platform).subrange(0, candidates.len() as int) == candidates,
{
    assert(code_probes(candidates, env_path, platform).subrange(0, candidates.len() as int) =~= candidates);
}

} // verus!
