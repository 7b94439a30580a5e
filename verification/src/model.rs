use vstd::prelude::*;

use crate::text::same_text;

verus! {

/// Where a mod is downloaded from: its kind (`modrinth`, `maven` or `url`) and the
/// coordinates that kind needs.
#[derive(Clone)]
pub struct ModSource {
    pub kind: String,
    pub project_slug: Option<String>,
    pub repository_ref: Option<String>,
    pub group_id: Option<String>,
    pub artifact_id: Option<String>,
}

/// The build of a mod for one game version and one loader.
#[derive(Clone)]
pub struct CompatibilityTarget {
    pub identifier: String,
    pub filename: Option<String>,
    pub source: Option<ModSource>,
}

/// One mod of a pack, with its builds keyed by game version, then by loader.
#[derive(Clone)]
pub struct ModEntry {
    pub id: String,
    pub source: ModSource,
    pub compatibility: Vec<(String, Vec<(String, CompatibilityTarget)>)>,
}

/// Where a pack is listed; packs of the `partner` category are not offered.
#[derive(Clone)]
pub struct Listing {
    pub category: String,
}

/// A pack (a branch of the client): its own mods, the packs it inherits from, and the mods
/// it takes out of what it inherits.
#[derive(Clone)]
pub struct Pack {
    pub display_name: String,
    pub inherits_from: Option<Vec<String>>,
    pub exclude_mods: Option<Vec<String>>,
    pub mods: Vec<ModEntry>,
    pub listing: Listing,
}

/// The pack manifest: the packs keyed by id and the maven repositories keyed by name.
/// No pack id occurs twice.
pub struct PackConfig {
    packs: Vec<(String, Pack)>,
    repositories: Vec<(String, String)>,
}

/// A branch offered for a game version and a loader.
#[derive(Clone)]
pub struct Branch {
    pub id: String,
    pub display_name: String,
}

/// A file to fetch for an installation.
#[derive(Clone)]
pub struct Download {
    pub url: String,
    pub filename: String,
}

/// What an installation reports while it runs.
pub enum InstallProgress {
    Progress { completed: usize, total: usize, filename: String },
    Finished(usize),
    Failed(String),
}

/// What is installed in a mods folder: the branch, game version and loader, and the files
/// that the installation wrote.
#[derive(Clone)]
pub struct InstalledPack {
    pub branch: String,
    pub game_version: String,
    pub loader: String,
    pub files: Vec<String>,
}

/// The text of each key of a keyed list.
pub open spec fn keys_of<V>(entries: Seq<(String, V)>) -> Seq<Seq<char>> {
    entries.map_values(|e: (String, V)| e.0@)
}

/// The texts of a list of strings.
pub open spec fn texts(v: Seq<String>) -> Seq<Seq<char>> {
    v.map_values(|s: String| s@)
}

/// `i` is the first position of `key` in a keyed list.
pub open spec fn is_first_key<V>(entries: Seq<(String, V)>, key: Seq<char>, i: int) -> bool {
    &&& 0 <= i < entries.len()
    &&& entries[i].0@ == key
    &&& forall|j: int| 0 <= j < i ==> entries[j].0@ != key
}

/// The value of the first entry of a keyed list whose key is `key`.
pub open spec fn lookup<V>(entries: Seq<(String, V)>, key: Seq<char>) -> Option<V> {
    if exists|i: int| is_first_key(entries, key, i) {
        Some(entries[choose|i: int| is_first_key(entries, key, i)].1)
    } else {
        None
    }
}

/// The keyed list has an entry with key `key`.
pub open spec fn has_key<V>(entries: Seq<(String, V)>, key: Seq<char>) -> bool {
    exists|i: int| 0 <= i < entries.len() && entries[i].0@ == key
}

/// Looking a key up finds an entry exactly when some entry has that key.
pub proof fn lemma_lookup_some<V>(entries: Seq<(String, V)>, key: Seq<char>)
    ensures
        lookup(entries, key) is Some <==> has_key(entries, key),
{
    if has_key(entries, key) {
        let i = choose|i: int| 0 <= i < entries.len() && entries[i].0@ == key;
        lemma_first_key_exists(entries, key, i);
    }
}

proof fn lemma_first_key_exists<V>(entries: Seq<(String, V)>, key: Seq<char>, i: int)
    requires
        0 <= i < entries.len(),
        entries[i].0@ == key,
    ensures
        exists|k: int| is_first_key(entries, key, k),
    decreases i,
{
    if exists|j: int| 0 <= j < i && entries[j].0@ == key {
        let j = choose|j: int| 0 <= j < i && entries[j].0@ == key;
        lemma_first_key_exists(entries, key, j);
    } else {
        assert(is_first_key(entries, key, i));
    }
}

/// Finds the value of the first entry of a keyed list whose key is `key`.
pub fn find_key<'a, V>(entries: &'a Vec<(String, V)>, key: &str) -> (r: Option<&'a V>)
    ensures
        r matches Some(v) ==> lookup(entries@, key@) == Some(*v),
        r is None ==> lookup(entries@, key@) is None,
{
    let mut i: usize = 0;
    while i < entries.len()
        invariant
            i <= entries.len(),
            forall|j: int| 0 <= j < i ==> entries@[j].0@ != key@,
        decreases entries.len() - i,
    {
        if same_text(entries[i].0.as_str(), key) {
            assert(is_first_key(entries@, key@, i as int));
            let ghost c = choose|c: int| is_first_key(entries@, key@, c);
            assert(c == i);
            return Some(&entries[i].1);
        }
        i = i + 1;
    }
    None
}

/// Tells whether a keyed list has an entry with key `key`.
pub fn contains_key<V>(entries: &Vec<(String, V)>, key: &str) -> (r: bool)
    ensures
        r == has_key(entries@, key@),
        r == lookup(entries@, key@) is Some,
{
    proof {
        lemma_lookup_some(entries@, key@);
    }
    match find_key(entries, key) {
        Some(_) => true,
        None => false,
    }
}

/// Tells whether a list of strings holds `s`.
pub fn contains_text(v: &Vec<String>, s: &str) -> (r: bool)
    ensures
        r == texts(v@).contains(s@),
{
    let mut i: usize = 0;
    while i < v.len()
        invariant
            i <= v.len(),
            forall|j: int| 0 <= j < i ==> v@[j]@ != s@,
        decreases v.len() - i,
    {
        if same_text(v[i].as_str(), s) {
            assert(texts(v@)[i as int] == s@);
            return true;
        }
        i = i + 1;
    }
    proof {
        if texts(v@).contains(s@) {
            let k = choose|k: int| 0 <= k < texts(v@).len() && texts(v@)[k] == s@;
            assert(v@[k]@ == s@);
        }
    }
    false
}

impl PackConfig {
    /// No pack id occurs twice. This holds of every manifest: it is the type's invariant,
    /// which `use_type_invariant` gives on any manifest value, and `packs` states it too.
    #[verifier::type_invariant]
    pub open spec fn ids_distinct(self) -> bool {
        keys_of(self.packs_spec()).no_duplicates()
    }

    /// The packs, keyed by id, in the order of the manifest.
    pub closed spec fn packs_spec(self) -> Seq<(String, Pack)> {
        self.packs@
    }

    /// The maven repositories, keyed by name.
    pub closed spec fn repositories_spec(self) -> Seq<(String, String)> {
        self.repositories@
    }

    /// Builds a manifest from its packs and repositories; `None` where a pack id occurs twice.
    pub fn new(packs: Vec<(String, Pack)>, repositories: Vec<(String, String)>) -> (r: Option<
        PackConfig,
    >)
        ensures
            r is Some <==> keys_of(packs@).no_duplicates(),
            r matches Some(c) ==> c.packs_spec() == packs@ && c.repositories_spec()
                == repositories@,
    {
        let mut i: usize = 0;
        while i < packs.len()
            invariant
                i <= packs.len(),
                forall|a: int, b: int|
                    0 <= a < b < i ==> #[trigger] packs@[a].0@ != #[trigger] packs@[b].0@,
            decreases packs.len() - i,
        {
            let mut j: usize = 0;
            while j < i
                invariant
                    i < packs.len(),
                    j <= i,
                    forall|a: int| 0 <= a < j ==> packs@[a].0@ != packs@[i as int].0@,
                decreases i - j,
            {
                if same_text(packs[j].0.as_str(), packs[i].0.as_str()) {
                    assert(keys_of(packs@)[j as int] == keys_of(packs@)[i as int]);
                    return None;
                }
                j = j + 1;
            }
            i = i + 1;
        }
        assert(keys_of(packs@).no_duplicates()) by {
            assert forall|a: int, b: int|
                0 <= a < keys_of(packs@).len() && 0 <= b < keys_of(packs@).len() && a
                    != b implies keys_of(packs@)[a] != keys_of(packs@)[b] by {
                if a < b {
                    assert(packs@[a].0@ != packs@[b].0@);
                } else {
                    assert(packs@[b].0@ != packs@[a].0@);
                }
            }
        }
        Some(PackConfig { packs, repositories })
    }

    /// The packs, keyed by id; no id occurs twice.
    pub fn packs(&self) -> (r: &Vec<(String, Pack)>)
        ensures
            r@ == self.packs_spec(),
            keys_of(r@).no_duplicates(),
    {
        proof {
            use_type_invariant(self);
        }
        &self.packs
    }

    /// The maven repositories, keyed by name.
    pub fn repositories(&self) -> (r: &Vec<(String, String)>)
        ensures
            r@ == self.repositories_spec(),
    {
        &self.repositories
    }
}

} // verus!
