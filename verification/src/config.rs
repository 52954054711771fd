//! The launcher's settings: the folder to scan, the pinned workspaces and
//! the icon chosen for each workspace.
use vstd::prelude::*;

use crate::path_identity::{path_id, same_path, same_path_spec, PathId};
use crate::launcher::{join_path, joined_path};
use crate::platform::Platform;
use crate::text::{chars_of, string_of};

verus! {

/// `serde_json::Error`, carried through as it is.
#[verifier::external_type_specification]
#[verifier::external_body]
pub struct ExJsonError(serde_json::Error);

/// The settings. `icons` maps workspace paths to icon paths, held as a list
/// of pairs whose keys are compared as paths (`path_identity`), so that no
/// workspace path has two entries.
#[derive(Debug)]
pub struct Config {
    pub root_folder: Option<String>,
    pub pinned: Vec<String>,
    pub icons: Vec<(String, String)>,
}

/// Why the settings could not be read or written.
#[derive(Debug)]
pub enum ConfigError {
    Io(std::io::Error),
    Parse(serde_json::Error),
    Serialize(serde_json::Error),
}

/// How reading the settings file went.
#[derive(Debug)]
pub enum ReadOutcome {
    /// The file was read and its contents parsed, or not.
    Parsed(Result<Config, serde_json::Error>),
    /// There is no settings file yet.
    NotFound,
    /// The file could not be read.
    Failed(std::io::Error),
}

/// The texts of a list of strings.
pub open spec fn texts(v: Seq<String>) -> Seq<Seq<char>> {
    v.map_values(|s: String| s@)
}

/// The paths of an icon list's keys, as `Path` equality sees them.
pub open spec fn icon_ids(v: Seq<(String, String)>, platform: Platform) -> Seq<PathId> {
    v.map_values(|e: (String, String)| path_id(e.0@, platform))
}

/// No workspace has two icon entries: no two keys are one path.
pub open spec fn icon_keys_distinct(v: Seq<(String, String)>, platform: Platform) -> bool {
    forall|i: int, j: int|
        0 <= i < j < v.len() ==> path_id(#[trigger] v[i].0@, platform) != path_id(#[trigger] v[j].0@, platform)
}

/// The map from workspace path to icon that an icon list stands for, keys
/// compared as paths; of two entries for one path the later one counts.
pub open spec fn icon_map(v: Seq<(String, String)>, platform: Platform) -> Map<PathId, Seq<char>>
    decreases v.len(),
{
    if v.len() == 0 {
        Map::empty()
    } else {
        icon_map(v.drop_last(), platform).insert(path_id(v.last().0@, platform), v.last().1@)
    }
}

/// A well-formed configuration: no workspace has two icon entries.
pub open spec fn config_wf(c: Config, platform: Platform) -> bool {
    icon_keys_distinct(c.icons@, platform)
}

/// `s` without the paths that are one path with `x`, order kept.
pub open spec fn without(s: Seq<Seq<char>>, x: Seq<char>, platform: Platform) -> Seq<Seq<char>>
    decreases s.len(),
{
    if s.len() == 0 {
        seq![]
    } else {
        let rest = without(s.drop_last(), x, platform);
        if same_path_spec(s.last(), x, platform) {
            rest
        } else {
            rest.push(s.last())
        }
    }
}

/// The pinned list once `path` is pinned (`pinned`) or unpinned: every
/// entry that is one path with it goes, and a pinned path goes to the end.
pub open spec fn repinned(s: Seq<Seq<char>>, path: Seq<char>, pinned: bool, platform: Platform) -> Seq<Seq<char>> {
    if pinned {
        without(s, path, platform).push(path)
    } else {
        without(s, path, platform)
    }
}

proof fn lemma_icon_map_dom(v: Seq<(String, String)>, platform: Platform)
    ensures
        forall|k: PathId| #[trigger] icon_map(v, platform).contains_key(k) <==> icon_ids(v, platform).contains(k),
    decreases v.len(),
{
    if v.len() > 0 {
        let q = v.drop_last();
        lemma_icon_map_dom(q, platform);
        let lk = path_id(v.last().0@, platform);
        assert forall|k: PathId| #[trigger] icon_map(v, platform).contains_key(k) <==> icon_ids(v, platform).contains(k) by {
            assert(icon_map(q, platform).contains_key(k) <==> icon_ids(q, platform).contains(k));
            assert(icon_map(v, platform) == icon_map(q, platform).insert(lk, v.last().1@));
            assert forall|i: int| 0 <= i < q.len() implies #[trigger] icon_ids(q, platform)[i] == icon_ids(v, platform)[i] by {
                assert(q[i] == v[i]);
            }
            if icon_ids(q, platform).contains(k) {
                let i = choose|i: int| 0 <= i < icon_ids(q, platform).len() && icon_ids(q, platform)[i] == k;
                assert(icon_ids(v, platform)[i] == k);
            }
            if icon_ids(v, platform).contains(k) {
                let i = choose|i: int| 0 <= i < icon_ids(v, platform).len() && icon_ids(v, platform)[i] == k;
                if i < q.len() {
                    assert(icon_ids(q, platform)[i] == k);
                } else {
                    assert(k == lk);
                }
            }
            if k == lk {
                assert(icon_ids(v, platform)[v.len() - 1] == k);
            }
        }
    }
}

proof fn lemma_icon_map_update(v: Seq<(String, String)>, j: int, e: (String, String), platform: Platform)
    requires
        icon_keys_distinct(v, platform),
        0 <= j < v.len(),
        path_id(v[j].0@, platform) == path_id(e.0@, platform),
    ensures
        icon_map(v.update(j, e), platform) == icon_map(v, platform).insert(path_id(e.0@, platform), e.1@),
        icon_keys_distinct(v.update(j, e), platform),
    decreases v.len(),
{
    let w = v.update(j, e);
    let q = v.drop_last();
    let k = path_id(e.0@, platform);
    if j == v.len() - 1 {
        assert(w.drop_last() =~= q);
        assert(icon_map(w, platform) =~= icon_map(v, platform).insert(k, e.1@));
    } else {
        lemma_icon_map_update(q, j, e, platform);
        assert(w.drop_last() =~= q.update(j, e));
        assert(path_id(v.last().0@, platform) != k) by {
            assert(path_id(v[j].0@, platform) != path_id(v[v.len() - 1].0@, platform));
        }
        assert(icon_map(w, platform) =~= icon_map(v, platform).insert(k, e.1@));
    }
    assert forall|a: int, b: int| 0 <= a < b < w.len() implies path_id(#[trigger] w[a].0@, platform) != path_id(
        #[trigger] w[b].0@,
        platform,
    ) by {
        assert(path_id(v[a].0@, platform) != path_id(v[b].0@, platform));
    }
}

proof fn lemma_icon_map_remove(v: Seq<(String, String)>, j: int, platform: Platform)
    requires
        icon_keys_distinct(v, platform),
        0 <= j < v.len(),
    ensures
        icon_map(v.remove(j), platform) == icon_map(v, platform).remove(path_id(v[j].0@, platform)),
        icon_keys_distinct(v.remove(j), platform),
    decreases v.len(),
{
    let w = v.remove(j);
    let q = v.drop_last();
    let k = path_id(v[j].0@, platform);
    if j == v.len() - 1 {
        assert(w =~= q);
        lemma_icon_map_dom(q, platform);
        assert(!icon_ids(q, platform).contains(k)) by {
            if icon_ids(q, platform).contains(k) {
                let i = choose|i: int| 0 <= i < icon_ids(q, platform).len() && icon_ids(q, platform)[i] == k;
                assert(path_id(v[i].0@, platform) != path_id(v[j].0@, platform));
            }
        }
        assert(icon_map(w, platform) =~= icon_map(v, platform).remove(k));
    } else {
        lemma_icon_map_remove(q, j, platform);
        assert(w.drop_last() =~= q.remove(j));
        assert(w.last() == v.last());
        assert(path_id(v.last().0@, platform) != k) by {
            assert(path_id(v[j].0@, platform) != path_id(v[v.len() - 1].0@, platform));
        }
        assert(icon_map(w, platform) =~= icon_map(v, platform).remove(k));
    }
    assert forall|a: int, b: int| 0 <= a < b < w.len() implies path_id(#[trigger] w[a].0@, platform) != path_id(
        #[trigger] w[b].0@,
        platform,
    ) by {
        let a0 = if a < j { a } else { a + 1 };
        let b0 = if b < j { b } else { b + 1 };
        assert(w[a] == v[a0] && w[b] == v[b0]);
        assert(path_id(v[a0].0@, platform) != path_id(v[b0].0@, platform));
    }
}

impl Config {
    /// The settings before anything is chosen: no folder, nothing pinned,
    /// no icons.
    pub fn new() -> (r: Config)
        ensures
            r.root_folder is None,
            r.pinned@.len() == 0,
            r.icons@.len() == 0,
            forall|platform: Platform| #[trigger] config_wf(r, platform),
    {
        Config { root_folder: None, pinned: Vec::new(), icons: Vec::new() }
    }

    /// A copy of the settings.
    pub fn copy(&self) -> (r: Config)
        ensures
            r.root_folder == self.root_folder,
            r.pinned@ == self.pinned@,
            r.icons@ == self.icons@,
    {
        let mut pinned: Vec<String> = Vec::new();
        let mut i: usize = 0;
        while i < self.pinned.len()
            invariant
                i <= self.pinned@.len(),
                pinned@ == self.pinned@.subrange(0, i as int),
            decreases self.pinned@.len() - i,
        {
            pinned.push(self.pinned[i].clone());
            i += 1;
            assert(pinned@ =~= self.pinned@.subrange(0, i as int));
        }
        let mut icons: Vec<(String, String)> = Vec::new();
        let mut j: usize = 0;
        while j < self.icons.len()
            invariant
                j <= self.icons@.len(),
                icons@ == self.icons@.subrange(0, j as int),
            decreases self.icons@.len() - j,
        {
            let e = (self.icons[j].0.clone(), self.icons[j].1.clone());
            icons.push(e);
            j += 1;
            assert(icons@ =~= self.icons@.subrange(0, j as int));
        }
        assert(self.pinned@.subrange(0, self.pinned@.len() as int) =~= self.pinned@);
        assert(self.icons@.subrange(0, self.icons@.len() as int) =~= self.icons@);
        let root_folder = match &self.root_folder {
            Some(r) => Some(r.clone()),
            None => None,
        };
        Config { root_folder, pinned, icons }
    }

    /// The icon chosen for `workspace`, if any; keys are compared as paths.
    pub fn icon_for(&self, workspace: &String, platform: Platform) -> (r: Option<String>)
        requires
            config_wf(*self, platform),
        ensures
            match r {
                Some(i) => icon_map(self.icons@, platform).contains_key(path_id(workspace@, platform))
                    && icon_map(self.icons@, platform)[path_id(workspace@, platform)] == i@,
                None => !icon_map(self.icons@, platform).contains_key(path_id(workspace@, platform)),
            },
    {
        match self.find_icon(workspace, platform) {
            Some(j) => {
                proof {
                    lemma_icon_map_update(self.icons@, j as int, self.icons@[j as int], platform);
                    assert(self.icons@.update(j as int, self.icons@[j as int]) =~= self.icons@);
                }
                Some(self.icons[j].1.clone())
            },
            None => {
                proof {
                    lemma_icon_map_dom(self.icons@, platform);
                }
                None
            },
        }
    }

    /// The index of the icon entry whose key is one path with `workspace`.
    fn find_icon(&self, workspace: &String, platform: Platform) -> (r: Option<usize>)
        ensures
            match r {
                Some(j) => j < self.icons@.len() && path_id(self.icons@[j as int].0@, platform) == path_id(
                    workspace@,
                    platform,
                ),
                None => !icon_ids(self.icons@, platform).contains(path_id(workspace@, platform)),
            },
    {
        let mut j: usize = 0;
        while j < self.icons.len()
            invariant
                j <= self.icons@.len(),
                forall|k: int|
                    0 <= k < j ==> path_id(#[trigger] self.icons@[k].0@, platform) != path_id(workspace@, platform),
            decreases self.icons@.len() - j,
        {
            if same_path(&self.icons[j].0, workspace, platform) {
                return Some(j);
            }
            j += 1;
        }
        proof {
            if icon_ids(self.icons@, platform).contains(path_id(workspace@, platform)) {
                let k = choose|k: int|
                    0 <= k < icon_ids(self.icons@, platform).len() && icon_ids(self.icons@, platform)[k] == path_id(
                        workspace@,
                        platform,
                    );
                assert(path_id(self.icons@[k].0@, platform) == path_id(workspace@, platform));
            }
        }
        None
    }

    /// Chooses the folder to scan, or none.
    pub fn set_root_folder(&mut self, path: Option<String>)
        ensures
            final(self).root_folder == path,
            final(self).pinned == old(self).pinned,
            final(self).icons == old(self).icons,
    {
        self.root_folder = path;
    }

    /// Pins `path` or unpins it: every pinned entry that is one path with
    /// it goes, and a pinned `path` goes to the end.
    pub fn set_pinned(&mut self, path: String, pinned: bool, platform: Platform)
        ensures
            texts(final(self).pinned@) == repinned(texts(old(self).pinned@), path@, pinned, platform),
            final(self).root_folder == old(self).root_folder,
            final(self).icons == old(self).icons,
    {
        let mut kept: Vec<String> = Vec::new();
        let mut i: usize = 0;
        while i < self.pinned.len()
            invariant
                i <= self.pinned@.len(),
                texts(kept@) == without(texts(self.pinned@).subrange(0, i as int), path@, platform),
            decreases self.pinned@.len() - i,
        {
            let ghost before = texts(self.pinned@).subrange(0, i as int);
            let ghost after = texts(self.pinned@).subrange(0, i + 1);
            assert(after.drop_last() =~= before);
            assert(after.last() == self.pinned@[i as int]@);
            if !same_path(&self.pinned[i], &path, platform) {
                let ghost prev = kept@;
                kept.push(self.pinned[i].clone());
                assert(texts(kept@) =~= texts(prev).push(self.pinned@[i as int]@));
            }
            i += 1;
        }
        assert(texts(self.pinned@).subrange(0, self.pinned@.len() as int) =~= texts(self.pinned@));
        if pinned {
            let ghost prev = kept@;
            let p = path;
            kept.push(p);
            assert(texts(kept@) =~= texts(prev).push(p@));
        }
        self.pinned = kept;
    }

    /// Sets the icon of `workspace` to `icon`, or clears it. Keys are
    /// compared as paths: where an entry for the same path exists, its
    /// value is replaced (its key text stays) or it goes; else a new entry
    /// goes at the end.
    pub fn set_icon(&mut self, workspace: String, icon: Option<String>, platform: Platform)
        requires
            config_wf(*old(self), platform),
        ensures
            config_wf(*final(self), platform),
            icon_map(final(self).icons@, platform) == match icon {
                Some(i) => icon_map(old(self).icons@, platform).insert(path_id(workspace@, platform), i@),
                None => icon_map(old(self).icons@, platform).remove(path_id(workspace@, platform)),
            },
            !icon_ids(old(self).icons@, platform).contains(path_id(workspace@, platform)) ==> final(self).icons@
                == match icon {
                Some(i) => old(self).icons@.push((workspace, i)),
                None => old(self).icons@,
            },
            final(self).root_folder == old(self).root_folder,
            final(self).pinned == old(self).pinned,
    {
        let found = self.find_icon(&workspace, platform);
        match icon {
            Some(i) => {
                match found {
                    Some(j) => {
                        assert(icon_ids(self.icons@, platform)[j as int] == path_id(workspace@, platform));
                        let key = self.icons[j].0.clone();
                        proof {
                            lemma_icon_map_update(self.icons@, j as int, (key, i), platform);
                        }
                        self.icons.set(j, (key, i));
                    },
                    None => {
                        let ghost prev = self.icons@;
                        proof {
                            lemma_icon_map_dom(prev, platform);
                        }
                        self.icons.push((workspace, i));
                        assert(self.icons@.drop_last() =~= prev);
                        assert forall|a: int, b: int| 0 <= a < b < self.icons@.len() implies path_id(
                            #[trigger] self.icons@[a].0@,
                            platform,
                        ) != path_id(#[trigger] self.icons@[b].0@, platform) by {
                            if b == prev.len() {
                                assert(icon_ids(prev, platform)[a] == path_id(prev[a].0@, platform));
                            } else {
                                assert(path_id(prev[a].0@, platform) != path_id(prev[b].0@, platform));
                            }
                        }
                    },
                }
            },
            None => {
                match found {
                    Some(j) => {
                        assert(icon_ids(self.icons@, platform)[j as int] == path_id(workspace@, platform));
                        proof {
                            lemma_icon_map_remove(self.icons@, j as int, platform);
                        }
                        self.icons.remove(j);
                    },
                    None => {
                        proof {
                            lemma_icon_map_dom(self.icons@, platform);
                            assert(icon_map(self.icons@, platform).remove(path_id(workspace@, platform)) =~= icon_map(
                                self.icons@,
                                platform,
                            ));
                        }
                    },
                }
            },
        }
    }
}

/// The settings that reading the settings file gives: a missing file
/// gives the defaults; a parsed file its contents, where icon entries whose
/// keys are one path count as one entry, the later value winning and the
/// first key's text staying (as a map keyed by paths reads them);
/// unparsable contents are a `Parse` error and a failed read an `Io` error.
pub fn config_from_read(outcome: ReadOutcome, platform: Platform) -> (r: Result<Config, ConfigError>)
    ensures
        match outcome {
            ReadOutcome::Parsed(Ok(c)) => r matches Ok(d) && d.root_folder == c.root_folder && d.pinned
                == c.pinned && icon_map(d.icons@, platform) == icon_map(c.icons@, platform) && (
            config_wf(c, platform) ==> d.icons@ == c.icons@),
            ReadOutcome::Parsed(Err(e)) => r matches Err(ConfigError::Parse(f)) && f == e,
            ReadOutcome::NotFound => r matches Ok(d) && d.root_folder is None && d.pinned@.len() == 0
                && d.icons@.len() == 0,
            ReadOutcome::Failed(e) => r matches Err(ConfigError::Io(f)) && f == e,
        },
        r matches Ok(d) ==> config_wf(d, platform),
{
    match outcome {
        ReadOutcome::Parsed(Ok(c)) => Ok(merge_icon_keys(c, platform)),
        ReadOutcome::Parsed(Err(e)) => Err(ConfigError::Parse(e)),
        ReadOutcome::NotFound => Ok(Config::new()),
        ReadOutcome::Failed(e) => Err(ConfigError::Io(e)),
    }
}

/// `c` with its icon entries set one after the other, so that entries for
/// one path merge.
fn merge_icon_keys(c: Config, platform: Platform) -> (d: Config)
    ensures
        d.root_folder == c.root_folder,
        d.pinned == c.pinned,
        icon_map(d.icons@, platform) == icon_map(c.icons@, platform),
        config_wf(c, platform) ==> d.icons@ == c.icons@,
        config_wf(d, platform),
{
    let Config { root_folder, pinned, icons } = c;
    let mut d = Config { root_folder, pinned, icons: Vec::new() };
    let mut i: usize = 0;
    while i < icons.len()
        invariant
            i <= icons@.len(),
            icons@ == c.icons@,
            d.root_folder == c.root_folder,
            d.pinned == c.pinned,
            config_wf(d, platform),
            icon_map(d.icons@, platform) == icon_map(icons@.subrange(0, i as int), platform),
            config_wf(c, platform) ==> d.icons@ == icons@.subrange(0, i as int),
        decreases icons@.len() - i,
    {
        let ghost before = icons@.subrange(0, i as int);
        let ghost after = icons@.subrange(0, i + 1);
        assert(after.drop_last() =~= before);
        let k = icons[i].0.clone();
        let v = icons[i].1.clone();
        proof {
            if config_wf(c, platform) {
                lemma_icon_map_dom(d.icons@, platform);
                if icon_ids(d.icons@, platform).contains(path_id(k@, platform)) {
                    let j = choose|j: int|
                        0 <= j < icon_ids(d.icons@, platform).len() && icon_ids(d.icons@, platform)[j] == path_id(
                            k@,
                            platform,
                        );
                    assert(d.icons@[j] == icons@[j]);
                    assert(path_id(icons@[j].0@, platform) != path_id(icons@[i as int].0@, platform));
                }
            }
        }
        d.set_icon(k, Some(v), platform);
        proof {
            if config_wf(c, platform) {
                assert(d.icons@ =~= icons@.subrange(0, i + 1));
            }
        }
        i += 1;
    }
    assert(icons@.subrange(0, icons@.len() as int) =~= icons@);
    d
}

/// Where the settings file lies in the user's configuration folder `dir`:
/// `dir/vscode-launcher/config.json`, joined as `Path::join` joins.
pub fn config_file_in(dir: &String, platform: Platform) -> (r: String)
    ensures
        r@ == joined_path(joined_path(dir@, "vscode-launcher"@, platform), "config.json"@, platform),
{
    let app = string_of(&chars_of("vscode-launcher"));
    let file = string_of(&chars_of("config.json"));
    proof {
        reveal_strlit("vscode-launcher");
        reveal_strlit("config.json");
    }
    let folder = join_path(dir, &app, platform);
    join_path(&folder, &file, platform)
}

/// The number of entries of `s` that are one path with `x`.
pub open spec fn occurrences(s: Seq<Seq<char>>, x: Seq<char>, platform: Platform) -> nat
    decreases s.len(),
{
    if s.len() == 0 {
        0
    } else {
        occurrences(s.drop_last(), x, platform) + if same_path_spec(s.last(), x, platform) {
            1nat
        } else {
            0nat
        }
    }
}

proof fn lemma_without_facts(s: Seq<Seq<char>>, x: Seq<char>, platform: Platform)
    ensures
        occurrences(without(s, x, platform), x, platform) == 0,
        without(without(s, x, platform), x, platform) == without(s, x, platform),
        forall|y: Seq<char>|
            !same_path_spec(y, x, platform) ==> occurrences(#[trigger] without(s, x, platform), y, platform)
                == occurrences(s, y, platform),
    decreases s.len(),
{
    if s.len() > 0 {
        let q = s.drop_last();
        lemma_without_facts(q, x, platform);
        let w = without(q, x, platform);
        if !same_path_spec(s.last(), x, platform) {
            assert(without(s, x, platform).drop_last() =~= w);
            assert(without(without(s, x, platform), x, platform) =~= without(w, x, platform).push(s.last()));
        }
        assert forall|y: Seq<char>| !same_path_spec(y, x, platform) implies occurrences(
            #[trigger] without(s, x, platform),
            y,
            platform,
        ) == occurrences(s, y, platform) by {
            assert(occurrences(w, y, platform) == occurrences(q, y, platform));
            if !same_path_spec(s.last(), x, platform) {
                assert(without(s, x, platform).drop_last() =~= w);
            }
        }
    }
}

/// Pinning a path lists it exactly once, last; unpinning lists it no more.
/// Entries are counted as paths: `/a/b` and `/a/b/` are one. Other paths
/// keep their number of entries either way.
pub proof fn law_pin_lists_once(s: Seq<Seq<char>>, path: Seq<char>, pinned: bool, platform: Platform)
    ensures
        occurrences(repinned(s, path, pinned, platform), path, platform) == if pinned {
            1nat
        } else {
            0nat
        },
        pinned ==> repinned(s, path, pinned, platform).last() == path,
        forall|y: Seq<char>|
            !same_path_spec(y, path, platform) ==> occurrences(#[trigger] repinned(s, path, pinned, platform), y, platform)
                == occurrences(s, y, platform),
{
    lemma_without_facts(s, path, platform);
    if pinned {
        let w = without(s, path, platform);
        assert(repinned(s, path, pinned, platform).drop_last() =~= w);
        assert forall|y: Seq<char>| !same_path_spec(y, path, platform) implies occurrences(
            #[trigger] repinned(s, path, pinned, platform),
            y,
            platform,
        ) == occurrences(s, y, platform) by {
            assert(occurrences(without(s, path, platform), y, platform) == occurrences(s, y, platform));
        }
    }
}

/// Pinning or unpinning twice in a row is the same as doing it once.
pub proof fn law_pin_idempotent(s: Seq<Seq<char>>, path: Seq<char>, pinned: bool, platform: Platform)
    ensures
        repinned(repinned(s, path, pinned, platform), path, pinned, platform) == repinned(s, path, pinned, platform),
{
    lemma_without_facts(s, path, platform);
    if pinned {
        let w = without(s, path, platform);
        assert(w.push(path).drop_last() =~= w);
        assert(without(w.push(path), path, platform) =~= without(w, path, platform));
    }
}

/// Pinning and then unpinning a path is the same as unpinning it, also
/// when it is unpinned under another spelling of the same path.
pub proof fn law_unpin_undoes_pin(s: Seq<Seq<char>>, path: Seq<char>, other_spelling: Seq<char>, platform: Platform)
    requires
        same_path_spec(path, other_spelling, platform),
    ensures
        repinned(repinned(s, path, true, platform), other_spelling, false, platform) == repinned(s, path, false, platform),
{
    let w = without(s, path, platform);
    assert(w.push(path).drop_last() =~= w);
    assert(without(w.push(path), other_spelling, platform) =~= without(w, other_spelling, platform));
    lemma_without_same(w, path, other_spelling, platform);
    lemma_without_same(s, path, other_spelling, platform);
    lemma_without_facts(s, path, platform);
}

proof fn lemma_without_same(s: Seq<Seq<char>>, x: Seq<char>, y: Seq<char>, platform: Platform)
    requires
        same_path_spec(x, y, platform),
    ensures
        without(s, x, platform) == without(s, y, platform),
    decreases s.len(),
{
    if s.len() > 0 {
        lemma_without_same(s.drop_last(), x, y, platform);
    }
}

/// Reading back an icon: after setting, the workspace maps to the icon;
/// after clearing, to none; other workspaces are untouched. Workspaces are
/// keys by path, so another spelling of the same path reads the same icon.
pub proof fn law_icon_read_back(
    m: Map<PathId, Seq<char>>,
    w: Seq<char>,
    icon: Option<Seq<char>>,
    same: Seq<char>,
    other: Seq<char>,
    platform: Platform,
)
    requires
        same_path_spec(w, same, platform),
        !same_path_spec(w, other, platform),
    ensures
        ({
            let after = match icon {
                Some(i) => m.insert(path_id(w, platform), i),
                None => m.remove(path_id(w, platform)),
            };
            &&& match icon {
                Some(i) => after.contains_key(path_id(same, platform)) && after[path_id(same, platform)] == i,
                None => !after.contains_key(path_id(same, platform)),
            }
            &&& after.contains_key(path_id(other, platform)) == m.contains_key(path_id(other, platform))
            &&& after.contains_key(path_id(other, platform)) ==> after[path_id(other, platform)] == m[path_id(
                other,
                platform,
            )]
        }),
{
}

} // verus!
