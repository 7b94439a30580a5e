use vstd::prelude::*;

use crate::error::{Fault, PackError};
use crate::model::{contains_text, find_key, keys_of, lemma_lookup_some, lookup, texts, ModEntry, Pack, PackConfig};
use crate::text::same_text;

verus! {

broadcast use vstd::seq_lib::group_seq_properties;

// ---------------------------------------------------------------------------------------------
// The mods of a pack as an ordered map: a list of entries in which a mod id occurs at most once.
// Putting an entry replaces the one with its id in place, or appends it; dropping an id removes
// its entry and keeps the order of the rest.
// ---------------------------------------------------------------------------------------------

/// `i` is the first position of mod id `key` in `s`.
pub open spec fn is_first_mod(s: Seq<ModEntry>, key: Seq<char>, i: int) -> bool {
    &&& 0 <= i < s.len()
    &&& s[i].id@ == key
    &&& forall|j: int| 0 <= j < i ==> s[j].id@ != key
}

/// The position of mod id `key` in `s`.
pub open spec fn mod_index(s: Seq<ModEntry>, key: Seq<char>) -> Option<int> {
    if exists|i: int| is_first_mod(s, key, i) {
        Some(choose|i: int| is_first_mod(s, key, i))
    } else {
        None
    }
}

/// Puts `e` under its id: it replaces the entry with that id, or comes last.
pub open spec fn put_mod(s: Seq<ModEntry>, e: ModEntry) -> Seq<ModEntry> {
    match mod_index(s, e.id@) {
        Some(i) => s.update(i, e),
        None => s.push(e),
    }
}

/// Puts each entry of `t`, in order.
pub open spec fn put_mods(s: Seq<ModEntry>, t: Seq<ModEntry>) -> Seq<ModEntry>
    decreases t.len(),
{
    if t.len() == 0 {
        s
    } else {
        put_mod(put_mods(s, t.drop_last()), t.last())
    }
}

/// Drops the entry with id `key`, if there is one.
pub open spec fn drop_mod(s: Seq<ModEntry>, key: Seq<char>) -> Seq<ModEntry> {
    match mod_index(s, key) {
        Some(i) => s.remove(i),
        None => s,
    }
}

/// Drops the entries with each id of `keys`.
pub open spec fn drop_mods(s: Seq<ModEntry>, keys: Seq<String>) -> Seq<ModEntry>
    decreases keys.len(),
{
    if keys.len() == 0 {
        s
    } else {
        drop_mod(drop_mods(s, keys.drop_last()), keys.last()@)
    }
}

/// The mod ids of a list of entries.
pub open spec fn mod_ids(s: Seq<ModEntry>) -> Seq<Seq<char>> {
    s.map_values(|e: ModEntry| e.id@)
}

/// The entries a list of references points at.
pub open spec fn derefs(v: Seq<&ModEntry>) -> Seq<ModEntry> {
    v.map_values(|e: &ModEntry| *e)
}

// ---------------------------------------------------------------------------------------------
// Resolution of a pack: the mods it inherits from its parents, in order, then its own mods,
// then without the mods it excludes. A pack met again on the path from the first one is a
// circular inheritance; an id that is no pack is an unknown branch.
// ---------------------------------------------------------------------------------------------

/// The ids of the packs.
pub open spec fn pack_ids(packs: Seq<(String, Pack)>) -> Set<Seq<char>> {
    keys_of(packs).to_set()
}

/// How many pack ids are not on the path yet: it bounds how deep resolution goes.
pub open spec fn unvisited(packs: Seq<(String, Pack)>, path: Set<Seq<char>>) -> nat {
    pack_ids(packs).difference(path).len()
}

/// Entering a pack that is not yet being resolved leaves fewer packs to enter.
pub proof fn lemma_visit_decreases(
    packs: Seq<(String, Pack)>,
    id: Seq<char>,
    path: Set<Seq<char>>,
)
    requires
        lookup(packs, id) is Some,
        !path.contains(id),
    ensures
        unvisited(packs, path.insert(id)) < unvisited(packs, path),
{
    lemma_lookup_some(packs, id);
    let k = choose|i: int| 0 <= i < packs.len() && packs[i].0@ == id;
    assert(keys_of(packs)[k] == id);
    assert(pack_ids(packs).contains(id));
    vstd::seq_lib::seq_to_set_is_finite(keys_of(packs));
    pack_ids(packs).lemma_set_insert_diff_decreases(path, id);
}

/// A pack's mods given the mods it inherits: its own mods put over them, then its
/// excluded mods dropped.
pub open spec fn own_mods(pack: Pack, inherited: Seq<ModEntry>) -> Seq<ModEntry> {
    let with_own = put_mods(inherited, pack.mods@);
    match pack.exclude_mods {
        Some(excluded) => drop_mods(with_own, excluded@),
        None => with_own,
    }
}

/// The mods of pack `id` when the packs on `path` are being resolved.
pub open spec fn resolve(packs: Seq<(String, Pack)>, id: Seq<char>, path: Set<Seq<char>>) -> Result<
    Seq<ModEntry>,
    Fault,
>
    decreases unvisited(packs, path), 0nat, 0nat,
{
    if path.contains(id) {
        Err(Fault::CircularInheritance(id))
    } else {
        match lookup(packs, id) {
            None => Err(Fault::UnknownBranch(id)),
            Some(pack) => {
                let inherited = match pack.inherits_from {
                    Some(parents) => {
                        proof {
                            lemma_visit_decreases(packs, id, path);
                        }
                        resolve_all(packs, parents@, path.insert(id))
                    },
                    None => Ok(Seq::empty()),
                };
                match inherited {
                    Ok(base) => Ok(own_mods(pack, base)),
                    Err(e) => Err(e),
                }
            },
        }
    }
}

/// The mods inherited from `parents`, in order: each parent's mods put over those of the
/// parents before it. The first parent that cannot be resolved gives the error.
pub open spec fn resolve_all(
    packs: Seq<(String, Pack)>,
    parents: Seq<String>,
    path: Set<Seq<char>>,
) -> Result<Seq<ModEntry>, Fault>
    decreases unvisited(packs, path), 1nat, parents.len(),
{
    if parents.len() == 0 {
        Ok(Seq::empty())
    } else {
        match resolve_all(packs, parents.drop_last(), path) {
            Err(e) => Err(e),
            Ok(acc) => match resolve(packs, parents.last()@, path) {
                Err(e) => Err(e),
                Ok(r) => Ok(put_mods(acc, r)),
            },
        }
    }
}

/// The outcome of resolving a pack from the start.
pub open spec fn resolution(packs: Seq<(String, Pack)>, id: Seq<char>) -> Result<
    Seq<ModEntry>,
    Fault,
> {
    resolve(packs, id, Set::empty())
}

/// An executable resolution result agrees with the mathematical one.
pub open spec fn agrees(r: Result<Vec<&ModEntry>, PackError>, s: Result<Seq<ModEntry>, Fault>) -> bool {
    match r {
        Ok(v) => s == Ok::<Seq<ModEntry>, Fault>(derefs(v@)),
        Err(e) => s == Err::<Seq<ModEntry>, Fault>(e@),
    }
}

proof fn lemma_resolve_all_error(
    packs: Seq<(String, Pack)>,
    parents: Seq<String>,
    path: Set<Seq<char>>,
    k: int,
    e: Fault,
)
    requires
        0 <= k <= parents.len(),
        resolve_all(packs, parents.take(k), path) == Err::<Seq<ModEntry>, Fault>(e),
    ensures
        resolve_all(packs, parents, path) == Err::<Seq<ModEntry>, Fault>(e),
    decreases parents.len(),
{
    if k == parents.len() {
        assert(parents.take(k) =~= parents);
    } else {
        assert(parents.drop_last().take(k) =~= parents.take(k));
        lemma_resolve_all_error(packs, parents.drop_last(), path, k, e);
    }
}

proof fn lemma_texts_push(v: Seq<String>, s: String)
    ensures
        texts(v.push(s)).to_set() == texts(v).to_set().insert(s@),
{
    assert(texts(v.push(s)) =~= texts(v).push(s@));
    assert(texts(v.push(s)).to_set() =~= texts(v).to_set().insert(s@)) by {
        assert forall|x: Seq<char>| #[trigger]
            texts(v.push(s)).to_set().contains(x) <==> texts(v).to_set().insert(s@).contains(x) by {
            if texts(v).contains(x) {
                let i = choose|i: int| 0 <= i < texts(v).len() && texts(v)[i] == x;
                assert(texts(v.push(s))[i] == x);
            }
            if texts(v.push(s)).contains(x) {
                let i = choose|i: int|
                    0 <= i < texts(v.push(s)).len() && texts(v.push(s))[i] == x;
                if i < texts(v).len() {
                    assert(texts(v)[i] == x);
                } else {
                    assert(x == s@);
                }
            }
            if x == s@ {
                assert(texts(v.push(s))[texts(v).len() as int] == x);
            }
        }
    }
}

/// The position of mod id `key` in a list of entries.
fn index_of_mod(list: &Vec<&ModEntry>, key: &str) -> (r: Option<usize>)
    ensures
        r matches Some(i) ==> mod_index(derefs(list@), key@) == Some(i as int),
        r is None ==> mod_index(derefs(list@), key@) is None,
{
    let ghost s = derefs(list@);
    let mut i: usize = 0;
    while i < list.len()
        invariant
            s == derefs(list@),
            i <= list.len(),
            forall|j: int| 0 <= j < i ==> s[j].id@ != key@,
        decreases list.len() - i,
    {
        if same_text(list[i].id.as_str(), key) {
            assert(is_first_mod(s, key@, i as int));
            let ghost c = choose|c: int| is_first_mod(s, key@, c);
            assert(c == i);
            return Some(i);
        }
        i = i + 1;
    }
    None
}

/// Puts an entry under its id.
fn put_entry<'a>(list: &mut Vec<&'a ModEntry>, e: &'a ModEntry)
    ensures
        derefs(final(list)@) == put_mod(derefs(old(list)@), *e),
{
    match index_of_mod(list, e.id.as_str()) {
        Some(i) => {
            list.set(i, e);
            assert(derefs(list@) =~= derefs(old(list)@).update(i as int, *e));
        },
        None => {
            list.push(e);
            assert(derefs(list@) =~= derefs(old(list)@).push(*e));
        },
    }
}

/// Drops the entry with id `key`, if there is one.
fn drop_entry(list: &mut Vec<&ModEntry>, key: &str)
    ensures
        derefs(final(list)@) == drop_mod(derefs(old(list)@), key@),
{
    match index_of_mod(list, key) {
        Some(i) => {
            list.remove(i);
            assert(derefs(list@) =~= derefs(old(list)@).remove(i as int));
        },
        None => {},
    }
}

/// Puts each entry of `more`, in order.
fn put_entries<'a>(list: &mut Vec<&'a ModEntry>, more: &Vec<&'a ModEntry>)
    ensures
        derefs(final(list)@) == put_mods(derefs(old(list)@), derefs(more@)),
{
    let ghost start = derefs(list@);
    let mut i: usize = 0;
    while i < more.len()
        invariant
            i <= more.len(),
            derefs(list@) == put_mods(start, derefs(more@).take(i as int)),
        decreases more.len() - i,
    {
        assert(derefs(more@).take(i as int + 1).drop_last() =~= derefs(more@).take(i as int));
        put_entry(list, more[i]);
        i = i + 1;
    }
    assert(derefs(more@).take(more.len() as int) =~= derefs(more@));
}

/// Puts each entry of `mods`, in order.
fn put_owned<'a>(list: &mut Vec<&'a ModEntry>, mods: &'a Vec<ModEntry>)
    ensures
        derefs(final(list)@) == put_mods(derefs(old(list)@), mods@),
{
    let ghost start = derefs(list@);
    let mut i: usize = 0;
    while i < mods.len()
        invariant
            i <= mods.len(),
            derefs(list@) == put_mods(start, mods@.take(i as int)),
        decreases mods.len() - i,
    {
        assert(mods@.take(i as int + 1).drop_last() =~= mods@.take(i as int));
        put_entry(list, &mods[i]);
        i = i + 1;
    }
    assert(mods@.take(mods.len() as int) =~= mods@);
}

/// Drops the entries with each id of `keys`.
fn drop_entries(list: &mut Vec<&ModEntry>, keys: &Vec<String>)
    ensures
        derefs(final(list)@) == drop_mods(derefs(old(list)@), keys@),
{
    let ghost start = derefs(list@);
    let mut i: usize = 0;
    while i < keys.len()
        invariant
            i <= keys.len(),
            derefs(list@) == drop_mods(start, keys@.take(i as int)),
        decreases keys.len() - i,
    {
        assert(keys@.take(i as int + 1).drop_last() =~= keys@.take(i as int));
        drop_entry(list, keys[i].as_str());
        i = i + 1;
    }
    assert(keys@.take(keys.len() as int) =~= keys@);
}

impl PackConfig {
    /// The mods of pack `pack_id`, with its inheritance resolved.
    pub fn resolve_mods<'a>(&'a self, pack_id: &str) -> (r: Result<Vec<&'a ModEntry>, PackError>)
        ensures
            agrees(r, resolution(self.packs_spec(), pack_id@)),
    {
        let mut visiting: Vec<String> = Vec::new();
        assert(texts(visiting@).to_set() =~= Set::<Seq<char>>::empty());
        self.resolve_mods_inner(pack_id, &mut visiting)
    }

    /// The mods of pack `pack_id` while the packs in `visiting` are being resolved; on
    /// success `visiting` is as it was.
    fn resolve_mods_inner<'a>(&'a self, pack_id: &str, visiting: &mut Vec<String>) -> (r: Result<
        Vec<&'a ModEntry>,
        PackError,
    >)
        ensures
            agrees(r, resolve(self.packs_spec(), pack_id@, texts(old(visiting)@).to_set())),
            r is Ok ==> final(visiting)@ == old(visiting)@,
            texts(old(visiting)@).contains(pack_id@) ==> final(visiting)@ == old(visiting)@,
        decreases unvisited(self.packs_spec(), texts(old(visiting)@).to_set()),
    {
        let ghost packs = self.packs_spec();
        let ghost path = texts(visiting@).to_set();
        if contains_text(visiting, pack_id) {
            return Err(PackError::CircularInheritance(String::from_str(pack_id)));
        }
        let pack = match find_key(self.packs(), pack_id) {
            Some(p) => p,
            None => {
                return Err(PackError::UnknownBranch(String::from_str(pack_id)));
            },
        };
        let name = String::from_str(pack_id);
        let ghost before = visiting@;
        visiting.push(name);
        proof {
            lemma_texts_push(before, name);
            lemma_visit_decreases(packs, pack_id@, path);
        }
        let mut resolved: Vec<&'a ModEntry> = Vec::new();
        assert(derefs(resolved@) =~= Seq::<ModEntry>::empty());
        assert(!path.contains(pack_id@));
        let ghost inherited: Result<Seq<ModEntry>, Fault> = if pack.inherits_from is Some {
            resolve_all(packs, pack.inherits_from->0@, path.insert(pack_id@))
        } else {
            Ok(Seq::empty())
        };
        match &pack.inherits_from {
            Some(parents) => {
                let mut i: usize = 0;
                assert(parents@.take(0) =~= Seq::<String>::empty());
                while i < parents.len()
                    invariant
                        packs == self.packs_spec(),
                        i <= parents.len(),
                        visiting@ == before.push(name),
                        texts(visiting@).to_set() == path.insert(pack_id@),
                        unvisited(packs, path.insert(pack_id@)) < unvisited(packs, path),
                        path == texts(old(visiting)@).to_set(),
                        before == old(visiting)@,
                        lookup(packs, pack_id@) == Some(*pack),
                        pack.inherits_from == Some(*parents),
                        !path.contains(pack_id@),
                        inherited == resolve_all(packs, parents@, path.insert(pack_id@)),
                        resolve_all(packs, parents@.take(i as int), path.insert(pack_id@)) == Ok::<
                            Seq<ModEntry>,
                            Fault,
                        >(derefs(resolved@)),
                    decreases parents.len() - i,
                {
                    let ghost done = derefs(resolved@);
                    let r = self.resolve_mods_inner(parents[i].as_str(), visiting);
                    assert(parents@.take(i as int + 1).drop_last() =~= parents@.take(i as int));
                    match r {
                        Err(e) => {
                            assert(parents@.take(i as int + 1).last() == parents@[i as int]);
                            assert(resolve_all(packs, parents@.take(i as int + 1), path.insert(pack_id@)) == Err::<Seq<ModEntry>, Fault>(e@));
                            proof {
                                lemma_resolve_all_error(
                                    packs,
                                    parents@,
                                    path.insert(pack_id@),
                                    i as int + 1,
                                    e@,
                                );
                            }
                            assert(resolve_all(packs, parents@, path.insert(pack_id@)) == Err::<Seq<ModEntry>, Fault>(e@));
                            assert(resolve(packs, pack_id@, path) == Err::<Seq<ModEntry>, Fault>(e@));
                            return Err(e);
                        },
                        Ok(more) => {
                            put_entries(&mut resolved, &more);
                        },
                    }
                    i = i + 1;
                }
                assert(parents@.take(parents.len() as int) =~= parents@);
            },
            None => {},
        }
        assert(inherited == Ok::<Seq<ModEntry>, Fault>(derefs(resolved@)));
        put_owned(&mut resolved, &pack.mods);
        match &pack.exclude_mods {
            Some(excluded) => drop_entries(&mut resolved, excluded),
            None => {},
        }
        visiting.pop();
        assert(visiting@ =~= old(visiting)@);
        Ok(resolved)
    }
}

// ---------------------------------------------------------------------------------------------
// Laws of resolution.
// ---------------------------------------------------------------------------------------------

proof fn lemma_mod_index_none(s: Seq<ModEntry>, key: Seq<char>, i: int)
    requires
        mod_index(s, key) is None,
        0 <= i < s.len(),
    ensures
        s[i].id@ != key,
    decreases i,
{
    if s[i].id@ == key {
        if forall|j: int| 0 <= j < i ==> s[j].id@ != key {
            assert(is_first_mod(s, key, i));
        } else {
            let j = choose|j: int| 0 <= j < i && s[j].id@ == key;
            lemma_mod_index_none(s, key, j);
        }
    }
}

proof fn lemma_put_mod(s: Seq<ModEntry>, e: ModEntry)
    requires
        mod_ids(s).no_duplicates(),
    ensures
        mod_ids(put_mod(s, e)).no_duplicates(),
        mod_ids(put_mod(s, e)).contains(e.id@),
        forall|k: Seq<char>| mod_ids(s).contains(k) ==> #[trigger] mod_ids(put_mod(s, e)).contains(k),
{
    let r = put_mod(s, e);
    match mod_index(s, e.id@) {
        Some(i) => {
            let c = choose|c: int| is_first_mod(s, e.id@, c);
            assert(mod_ids(r) =~= mod_ids(s));
            assert(mod_ids(r)[i] == e.id@);
        },
        None => {
            assert(mod_ids(r) =~= mod_ids(s).push(e.id@));
            assert forall|a: int, b: int|
                0 <= a < mod_ids(r).len() && 0 <= b < mod_ids(r).len() && a != b implies mod_ids(r)[a] != mod_ids(r)[b] by {
                if a == s.len() as int {
                    lemma_mod_index_none(s, e.id@, b);
                } else if b == s.len() as int {
                    lemma_mod_index_none(s, e.id@, a);
                }
            }
            assert(mod_ids(r)[s.len() as int] == e.id@);
        },
    }
    assert forall|k: Seq<char>| mod_ids(s).contains(k) implies #[trigger] mod_ids(r).contains(k) by {
        let j = choose|j: int| 0 <= j < mod_ids(s).len() && mod_ids(s)[j] == k;
        assert(mod_ids(r)[j] == k);
    }
}

proof fn lemma_put_mods(s: Seq<ModEntry>, t: Seq<ModEntry>)
    requires
        mod_ids(s).no_duplicates(),
    ensures
        mod_ids(put_mods(s, t)).no_duplicates(),
        forall|i: int| 0 <= i < t.len() ==> mod_ids(put_mods(s, t)).contains(#[trigger] t[i].id@),
        forall|k: Seq<char>| mod_ids(s).contains(k) ==> #[trigger] mod_ids(put_mods(s, t)).contains(k),
    decreases t.len(),
{
    if t.len() > 0 {
        lemma_put_mods(s, t.drop_last());
        let inner = put_mods(s, t.drop_last());
        lemma_put_mod(inner, t.last());
        assert forall|i: int| 0 <= i < t.len() implies mod_ids(put_mods(s, t)).contains(#[trigger] t[i].id@) by {
            if i < t.len() - 1 {
                assert(t.drop_last()[i] == t[i]);
                assert(mod_ids(inner).contains(t[i].id@));
            }
        }
    }
}

proof fn lemma_drop_mod(s: Seq<ModEntry>, key: Seq<char>)
    requires
        mod_ids(s).no_duplicates(),
    ensures
        mod_ids(drop_mod(s, key)).no_duplicates(),
        !mod_ids(drop_mod(s, key)).contains(key),
        forall|k: Seq<char>| #[trigger] mod_ids(drop_mod(s, key)).contains(k) <==> (mod_ids(s).contains(k) && k != key),
{
    let r = drop_mod(s, key);
    match mod_index(s, key) {
        Some(i) => {
            let c = choose|c: int| is_first_mod(s, key, c);
            assert(mod_ids(r) =~= mod_ids(s).remove(i));
            assert(mod_ids(s)[i] == key);
            assert forall|k: Seq<char>| #[trigger] mod_ids(r).contains(k) <==> (mod_ids(s).contains(k) && k != key) by {
                if mod_ids(r).contains(k) {
                    let j = choose|j: int| 0 <= j < mod_ids(r).len() && mod_ids(r)[j] == k;
                    if j < i {
                        assert(mod_ids(s)[j] == k);
                    } else {
                        assert(mod_ids(s)[j + 1] == k);
                    }
                }
                if mod_ids(s).contains(k) && k != key {
                    let j = choose|j: int| 0 <= j < mod_ids(s).len() && mod_ids(s)[j] == k;
                    if j < i {
                        assert(mod_ids(r)[j] == k);
                    } else {
                        assert(mod_ids(r)[j - 1] == k);
                    }
                }
            }
        },
        None => {
            assert forall|k: Seq<char>| #[trigger] mod_ids(r).contains(k) <==> (mod_ids(s).contains(k) && k != key) by {
                if mod_ids(s).contains(k) {
                    let j = choose|j: int| 0 <= j < mod_ids(s).len() && mod_ids(s)[j] == k;
                    lemma_mod_index_none(s, key, j);
                }
            }
        },
    }
}

proof fn lemma_drop_mods(s: Seq<ModEntry>, keys: Seq<String>)
    requires
        mod_ids(s).no_duplicates(),
    ensures
        mod_ids(drop_mods(s, keys)).no_duplicates(),
        forall|k: Seq<char>| #[trigger] mod_ids(drop_mods(s, keys)).contains(k) <==> (mod_ids(s).contains(k) && !texts(keys).contains(k)),
    decreases keys.len(),
{
    if keys.len() == 0 {
    } else {
        lemma_drop_mods(s, keys.drop_last());
        let inner = drop_mods(s, keys.drop_last());
        lemma_drop_mod(inner, keys.last()@);
        assert(texts(keys) =~= texts(keys.drop_last()).push(keys.last()@));
        assert forall|k: Seq<char>| #[trigger] mod_ids(drop_mods(s, keys)).contains(k) <==> (mod_ids(s).contains(k) && !texts(keys).contains(k)) by {
            if texts(keys).contains(k) && k != keys.last()@ {
                let j = choose|j: int| 0 <= j < texts(keys).len() && texts(keys)[j] == k;
                assert(texts(keys.drop_last())[j] == k);
            }
            if texts(keys.drop_last()).contains(k) {
                let j = choose|j: int| 0 <= j < texts(keys.drop_last()).len() && texts(keys.drop_last())[j] == k;
                assert(texts(keys)[j] == k);
            }
        }
    }
}

proof fn lemma_resolve_distinct(packs: Seq<(String, Pack)>, id: Seq<char>, path: Set<Seq<char>>)
    ensures
        resolve(packs, id, path) matches Ok(mods) ==> mod_ids(mods).no_duplicates(),
    decreases unvisited(packs, path), 0nat, 0nat,
{
    if !path.contains(id) {
        match lookup(packs, id) {
            None => {},
            Some(pack) => {
                let base = if pack.inherits_from is Some {
                    lemma_visit_decreases(packs, id, path);
                    lemma_resolve_all_distinct(packs, pack.inherits_from->0@, path.insert(id));
                    resolve_all(packs, pack.inherits_from->0@, path.insert(id))
                } else {
                    assert(mod_ids(Seq::<ModEntry>::empty()) =~= Seq::<Seq<char>>::empty());
                    Ok(Seq::<ModEntry>::empty())
                };
                if let Ok(b) = base {
                    lemma_put_mods(b, pack.mods@);
                    if pack.exclude_mods is Some {
                        lemma_drop_mods(put_mods(b, pack.mods@), pack.exclude_mods->0@);
                    }
                }
            },
        }
    }
}

proof fn lemma_resolve_all_distinct(
    packs: Seq<(String, Pack)>,
    parents: Seq<String>,
    path: Set<Seq<char>>,
)
    ensures
        resolve_all(packs, parents, path) matches Ok(mods) ==> mod_ids(mods).no_duplicates(),
    decreases unvisited(packs, path), 1nat, parents.len(),
{
    if parents.len() == 0 {
        assert(mod_ids(Seq::<ModEntry>::empty()) =~= Seq::<Seq<char>>::empty());
    } else {
        lemma_resolve_all_distinct(packs, parents.drop_last(), path);
        lemma_resolve_distinct(packs, parents.last()@, path);
        if let Ok(acc) = resolve_all(packs, parents.drop_last(), path) {
            if let Ok(r) = resolve(packs, parents.last()@, path) {
                lemma_put_mods(acc, r);
            }
        }
    }
}

/// When a pack resolves, its mods hold no mod id twice; none of them is one that the pack
/// excludes; and each mod the pack lists itself is among them, unless the pack excludes
/// it.
pub proof fn lemma_resolved_pack(packs: Seq<(String, Pack)>, id: Seq<char>)
    requires
        resolution(packs, id) is Ok,
    ensures
        lookup(packs, id) is Some,
        ({
            let mods = resolution(packs, id)->Ok_0;
            let pack = lookup(packs, id)->0;
            let excluded = match pack.exclude_mods {
                Some(ex) => texts(ex@),
                None => Seq::empty(),
            };
            &&& mod_ids(mods).no_duplicates()
            &&& forall|k: Seq<char>| excluded.contains(k) ==> !#[trigger] mod_ids(mods).contains(k)
            &&& forall|i: int|
                0 <= i < pack.mods@.len() && !excluded.contains(pack.mods@[i].id@)
                    ==> mod_ids(mods).contains(#[trigger] pack.mods@[i].id@)
        }),
{
    let path = Set::<Seq<char>>::empty();
    lemma_resolve_distinct(packs, id, path);
    let pack = lookup(packs, id)->0;
    let base = if pack.inherits_from is Some {
        lemma_visit_decreases(packs, id, path);
        lemma_resolve_all_distinct(packs, pack.inherits_from->0@, path.insert(id));
        resolve_all(packs, pack.inherits_from->0@, path.insert(id))
    } else {
        assert(mod_ids(Seq::<ModEntry>::empty()) =~= Seq::<Seq<char>>::empty());
        Ok(Seq::<ModEntry>::empty())
    };
    let b = base->Ok_0;
    lemma_put_mods(b, pack.mods@);
    if pack.exclude_mods is Some {
        lemma_drop_mods(put_mods(b, pack.mods@), pack.exclude_mods->0@);
    }
}

proof fn lemma_resolve_all_blocked(
    packs: Seq<(String, Pack)>,
    parents: Seq<String>,
    path: Set<Seq<char>>,
    k: int,
)
    requires
        0 <= k < parents.len(),
        path.contains(parents[k]@),
    ensures
        resolve_all(packs, parents, path) is Err,
    decreases parents.len(),
{
    if k < parents.len() - 1 {
        assert(parents.drop_last()[k] == parents[k]);
        lemma_resolve_all_blocked(packs, parents.drop_last(), path, k);
    } else {
        assert(parents.last() == parents[k]);
        assert(resolve(packs, parents.last()@, path) is Err);
    }
}

proof fn lemma_put_mod_entries(s: Seq<ModEntry>, e: ModEntry)
    ensures
        put_mod(s, e).contains(e),
        forall|x: ModEntry| s.contains(x) && x.id@ != e.id@ ==> #[trigger] put_mod(s, e).contains(x),
{
    let r = put_mod(s, e);
    match mod_index(s, e.id@) {
        Some(i) => {
            let c = choose|c: int| is_first_mod(s, e.id@, c);
            assert(r[i] == e);
            assert forall|x: ModEntry| s.contains(x) && x.id@ != e.id@ implies #[trigger] r.contains(x) by {
                let j = choose|j: int| 0 <= j < s.len() && s[j] == x;
                assert(r[j] == x);
            }
        },
        None => {
            assert(r[s.len() as int] == e);
            assert forall|x: ModEntry| s.contains(x) && x.id@ != e.id@ implies #[trigger] r.contains(x) by {
                let j = choose|j: int| 0 <= j < s.len() && s[j] == x;
                assert(r[j] == x);
            }
        },
    }
}

proof fn lemma_put_mods_last(s: Seq<ModEntry>, t: Seq<ModEntry>, i: int)
    requires
        0 <= i < t.len(),
        forall|j: int| i < j < t.len() ==> #[trigger] t[j].id@ != t[i].id@,
    ensures
        put_mods(s, t).contains(t[i]),
    decreases t.len(),
{
    lemma_put_mod_entries(put_mods(s, t.drop_last()), t.last());
    if i < t.len() - 1 {
        assert forall|j: int| i < j < t.drop_last().len() implies #[trigger] t.drop_last()[j].id@
            != t.drop_last()[i].id@ by {
            assert(t[j].id@ != t[i].id@);
        }
        lemma_put_mods_last(s, t.drop_last(), i);
        assert(t.last().id@ != t[i].id@) by {
            assert(t[t.len() - 1].id@ != t[i].id@);
        }
    }
}

proof fn lemma_drop_mod_entries(s: Seq<ModEntry>, key: Seq<char>, x: ModEntry)
    requires
        s.contains(x),
        x.id@ != key,
    ensures
        drop_mod(s, key).contains(x),
{
    let j = choose|j: int| 0 <= j < s.len() && s[j] == x;
    match mod_index(s, key) {
        Some(i) => {
            let c = choose|c: int| is_first_mod(s, key, c);
            if j < i {
                assert(drop_mod(s, key)[j] == x);
            } else {
                assert(drop_mod(s, key)[j - 1] == x);
            }
        },
        None => {},
    }
}

proof fn lemma_drop_mods_entries(s: Seq<ModEntry>, keys: Seq<String>, x: ModEntry)
    requires
        s.contains(x),
        !texts(keys).contains(x.id@),
    ensures
        drop_mods(s, keys).contains(x),
    decreases keys.len(),
{
    if keys.len() > 0 {
        assert(!texts(keys.drop_last()).contains(x.id@)) by {
            if texts(keys.drop_last()).contains(x.id@) {
                let j = choose|j: int| 0 <= j < texts(keys.drop_last()).len() && texts(keys.drop_last())[j] == x.id@;
                assert(texts(keys)[j] == x.id@);
            }
        }
        lemma_drop_mods_entries(s, keys.drop_last(), x);
        assert(texts(keys)[keys.len() - 1] == keys.last()@);
        lemma_drop_mod_entries(drop_mods(s, keys.drop_last()), keys.last()@, x);
    }
}

/// When a pack resolves, each mod it lists itself and does not exclude is among its mods as
/// the pack lists it last, over any mod with the same id that it inherits.
pub proof fn lemma_own_mods_override(packs: Seq<(String, Pack)>, id: Seq<char>, i: int)
    requires
        resolution(packs, id) is Ok,
        lookup(packs, id) matches Some(pack) && 0 <= i < pack.mods@.len() && (forall|j: int|
            i < j < pack.mods@.len() ==> #[trigger] pack.mods@[j].id@ != pack.mods@[i].id@)
            && !(pack.exclude_mods matches Some(ex) && texts(ex@).contains(pack.mods@[i].id@)),
    ensures
        resolution(packs, id)->Ok_0.contains(lookup(packs, id)->0.mods@[i]),
{
    let pack = lookup(packs, id)->0;
    let path = Set::<Seq<char>>::empty();
    let base = if pack.inherits_from is Some {
        resolve_all(packs, pack.inherits_from->0@, path.insert(id))
    } else {
        Ok(Seq::<ModEntry>::empty())
    };
    let b = base->Ok_0;
    assert(resolution(packs, id)->Ok_0 == own_mods(pack, b));
    lemma_put_mods_last(b, pack.mods@, i);
    if pack.exclude_mods is Some {
        lemma_drop_mods_entries(put_mods(b, pack.mods@), pack.exclude_mods->0@, pack.mods@[i]);
    }
}

proof fn lemma_resolve_fewer_visited(
    packs: Seq<(String, Pack)>,
    id: Seq<char>,
    more: Set<Seq<char>>,
    fewer: Set<Seq<char>>,
)
    requires
        fewer.subset_of(more),
        resolve(packs, id, more) is Ok,
    ensures
        resolve(packs, id, fewer) == resolve(packs, id, more),
    decreases unvisited(packs, fewer), 0nat, 0nat,
{
    let pack = lookup(packs, id)->0;
    if pack.inherits_from is Some {
        lemma_visit_decreases(packs, id, fewer);
        lemma_resolve_all_fewer_visited(
            packs,
            pack.inherits_from->0@,
            more.insert(id),
            fewer.insert(id),
        );
    }
}

proof fn lemma_resolve_all_fewer_visited(
    packs: Seq<(String, Pack)>,
    parents: Seq<String>,
    more: Set<Seq<char>>,
    fewer: Set<Seq<char>>,
)
    requires
        fewer.subset_of(more),
        resolve_all(packs, parents, more) is Ok,
    ensures
        resolve_all(packs, parents, fewer) == resolve_all(packs, parents, more),
    decreases unvisited(packs, fewer), 1nat, parents.len(),
{
    if parents.len() > 0 {
        lemma_resolve_all_fewer_visited(packs, parents.drop_last(), more, fewer);
        lemma_resolve_fewer_visited(packs, parents.last()@, more, fewer);
    }
}

proof fn lemma_resolve_all_keeps_parents(
    packs: Seq<(String, Pack)>,
    parents: Seq<String>,
    path: Set<Seq<char>>,
    k: int,
)
    requires
        resolve_all(packs, parents, path) is Ok,
        0 <= k < parents.len(),
    ensures
        resolve(packs, parents[k]@, path) is Ok,
        forall|key: Seq<char>|
            mod_ids(resolve(packs, parents[k]@, path)->Ok_0).contains(key)
                ==> #[trigger] mod_ids(resolve_all(packs, parents, path)->Ok_0).contains(key),
    decreases parents.len(),
{
    let acc = resolve_all(packs, parents.drop_last(), path)->Ok_0;
    let r = resolve(packs, parents.last()@, path)->Ok_0;
    lemma_resolve_all_distinct(packs, parents.drop_last(), path);
    lemma_put_mods(acc, r);
    if k == parents.len() - 1 {
        assert forall|key: Seq<char>| mod_ids(r).contains(key) implies #[trigger] mod_ids(
            put_mods(acc, r),
        ).contains(key) by {
            let j = choose|j: int| 0 <= j < mod_ids(r).len() && mod_ids(r)[j] == key;
            assert(mod_ids(put_mods(acc, r)).contains(r[j].id@));
        }
    } else {
        assert(parents.drop_last()[k] == parents[k]);
        lemma_resolve_all_keeps_parents(packs, parents.drop_last(), path, k);
    }
}

/// When a pack resolves, each pack it inherits from resolves on its own, and each mod id of
/// such a pack is among the pack's mods, unless the pack excludes it.
pub proof fn lemma_inherited_mods(packs: Seq<(String, Pack)>, id: Seq<char>, k: int)
    requires
        resolution(packs, id) is Ok,
        lookup(packs, id) matches Some(pack) && pack.inherits_from matches Some(parents) && 0
            <= k < parents@.len(),
    ensures
        ({
            let pack = lookup(packs, id)->0;
            let parent = pack.inherits_from->0@[k]@;
            let excluded = match pack.exclude_mods {
                Some(ex) => texts(ex@),
                None => Seq::empty(),
            };
            &&& resolution(packs, parent) is Ok
            &&& forall|key: Seq<char>|
                mod_ids(resolution(packs, parent)->Ok_0).contains(key) && !excluded.contains(key)
                    ==> #[trigger] mod_ids(resolution(packs, id)->Ok_0).contains(key)
        }),
{
    let pack = lookup(packs, id)->0;
    let parents = pack.inherits_from->0@;
    let path = Set::<Seq<char>>::empty().insert(id);
    let b = resolve_all(packs, parents, path)->Ok_0;
    lemma_resolve_all_keeps_parents(packs, parents, path, k);
    lemma_resolve_fewer_visited(packs, parents[k]@, path, Set::empty());
    lemma_resolve_all_distinct(packs, parents, path);
    lemma_put_mods(b, pack.mods@);
    if pack.exclude_mods is Some {
        lemma_drop_mods(put_mods(b, pack.mods@), pack.exclude_mods->0@);
    }
}

/// A pack that lists itself among the packs it inherits from never resolves.
pub proof fn lemma_self_inheritance(packs: Seq<(String, Pack)>, id: Seq<char>)
    requires
        lookup(packs, id) matches Some(pack) && pack.inherits_from matches Some(parents) && texts(
            parents@,
        ).contains(id),
    ensures
        resolution(packs, id) is Err,
{
    let pack = lookup(packs, id)->0;
    let parents = pack.inherits_from->0@;
    let k = choose|k: int| 0 <= k < texts(parents).len() && texts(parents)[k] == id;
    let path = Set::<Seq<char>>::empty();
    lemma_visit_decreases(packs, id, path);
    lemma_resolve_all_blocked(packs, parents, path.insert(id), k);
}

} // verus!
