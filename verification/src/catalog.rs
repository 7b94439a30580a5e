use vstd::prelude::*;

use crate::model::{
    contains_key, contains_text, find_key, has_key, is_first_key, keys_of, lookup, texts, Branch,
    ModEntry,
    Pack, PackConfig,
};
use crate::resolve::{derefs, resolution};
use crate::sorting::{
    is_sorted, is_total, is_transitive, lemma_sort_map, lemma_sort_no_duplicates,
    lemma_sort_same_items, lemma_sort_sorted, sort_by_order, sort_spec, SortOrder,
};
use crate::text::{
    lemma_parts_lt_asymmetric, lemma_parts_lt_total, lemma_parts_lt_transitive,
    lemma_text_lt_asymmetric, lemma_text_lt_irreflexive, lemma_text_lt_total, lemma_text_lt_transitive, parts_less, parts_lt,
    same_text, text_less, text_lt, version_parts, version_parts_spec,
};

verus! {

broadcast use vstd::seq_lib::group_seq_properties;

// ---------------------------------------------------------------------------------------------
// Orders of the offered choices.
// ---------------------------------------------------------------------------------------------

/// Game version `a` may stand before `b`: newest first, by the numbers of the version.
pub open spec fn version_le(a: Seq<char>, b: Seq<char>) -> bool {
    !parts_lt(version_parts_spec(a), version_parts_spec(b))
}

/// The rank of a loader: Fabric, then NeoForge, then Forge, then the others.
pub open spec fn loader_rank(loader: Seq<char>) -> u8 {
    if loader == "fabric"@ {
        0
    } else if loader == "neoforge"@ {
        1
    } else if loader == "forge"@ {
        2
    } else {
        3
    }
}

/// Loader `a` may stand before `b`: by rank, then by name.
pub open spec fn loader_le(a: Seq<char>, b: Seq<char>) -> bool {
    loader_rank(a) < loader_rank(b) || (loader_rank(a) == loader_rank(b) && !text_lt(b, a))
}

/// The rank of a branch: the standalone client, stable, production, mini and nightly
/// branches, then the others.
pub open spec fn branch_rank(branch: Seq<char>) -> u8 {
    if branch == "nrc-standalone"@ {
        0
    } else if branch == "norisk-stable"@ {
        1
    } else if branch == "norisk-prod"@ {
        2
    } else if branch == "nrc-mini"@ {
        3
    } else if branch == "nrc-nightly"@ {
        4
    } else {
        5
    }
}

/// Branch `a` may stand before `b`: by rank, then by id, then by display name.
pub open spec fn branch_le(a: Branch, b: Branch) -> bool {
    ||| branch_rank(a.id@) < branch_rank(b.id@)
    ||| branch_rank(a.id@) == branch_rank(b.id@) && text_lt(a.id@, b.id@)
    ||| branch_rank(a.id@) == branch_rank(b.id@) && a.id@ == b.id@ && !text_lt(
        b.display_name@,
        a.display_name@,
    )
}

/// The key by which loaders are ordered: the loader's rank, then its name.
pub fn loader_order(loader: &str) -> (r: (u8, &str))
    ensures
        r.0 == loader_rank(loader@),
        r.1@ == loader@,
{
    let rank: u8 = if same_text(loader, "fabric") {
        0
    } else if same_text(loader, "neoforge") {
        1
    } else if same_text(loader, "forge") {
        2
    } else {
        3
    };
    (rank, loader)
}

/// The key by which branches are ordered: the branch's rank, then its id.
pub fn branch_order(branch: &str) -> (r: (u8, &str))
    ensures
        r.0 == branch_rank(branch@),
        r.1@ == branch@,
{
    let rank: u8 = if same_text(branch, "nrc-standalone") {
        0
    } else if same_text(branch, "norisk-stable") {
        1
    } else if same_text(branch, "norisk-prod") {
        2
    } else if same_text(branch, "nrc-mini") {
        3
    } else if same_text(branch, "nrc-nightly") {
        4
    } else {
        5
    };
    (rank, branch)
}

/// Game versions, newest first.
pub struct VersionOrder;

impl SortOrder<String> for VersionOrder {
    open spec fn le(a: String, b: String) -> bool {
        version_le(a@, b@)
    }

    fn le_exec(a: &String, b: &String) -> (r: bool) {
        let pa = version_parts(a.as_str());
        let pb = version_parts(b.as_str());
        !parts_less(&pa, &pb)
    }
}

/// Loaders, by rank then name.
pub struct LoaderOrder;

impl SortOrder<String> for LoaderOrder {
    open spec fn le(a: String, b: String) -> bool {
        loader_le(a@, b@)
    }

    fn le_exec(a: &String, b: &String) -> (r: bool) {
        let ra = loader_order(a.as_str()).0;
        let rb = loader_order(b.as_str()).0;
        ra < rb || (ra == rb && !text_less(b.as_str(), a.as_str()))
    }
}

/// Branches, by rank, id and display name.
pub struct BranchOrder;

impl SortOrder<Branch> for BranchOrder {
    open spec fn le(a: Branch, b: Branch) -> bool {
        branch_le(a, b)
    }

    fn le_exec(a: &Branch, b: &Branch) -> (r: bool) {
        let ra = branch_order(a.id.as_str()).0;
        let rb = branch_order(b.id.as_str()).0;
        if ra != rb {
            ra < rb
        } else if text_less(a.id.as_str(), b.id.as_str()) {
            true
        } else if same_text(a.id.as_str(), b.id.as_str()) {
            !text_less(b.display_name.as_str(), a.display_name.as_str())
        } else {
            false
        }
    }
}

// ---------------------------------------------------------------------------------------------
// What the packs offer.
// ---------------------------------------------------------------------------------------------

/// A pack that is offered: one not listed in the `partner` category.
pub open spec fn is_core(pack: Pack) -> bool {
    pack.listing.category@ != "partner"@
}

/// The keys of a keyed list.
pub open spec fn keys<V>(entries: Seq<(String, V)>) -> Seq<String> {
    entries.map_values(|e: (String, V)| e.0)
}

/// `k` added at the end of `acc` unless a text equal to it is there already.
pub open spec fn add_key(acc: Seq<String>, k: String) -> Seq<String> {
    if texts(acc).contains(k@) {
        acc
    } else {
        acc.push(k)
    }
}

/// Each of `ks` added in turn.
pub open spec fn add_keys(acc: Seq<String>, ks: Seq<String>) -> Seq<String>
    decreases ks.len(),
{
    if ks.len() == 0 {
        acc
    } else {
        add_key(add_keys(acc, ks.drop_last()), ks.last())
    }
}

/// The game versions of each mod of `mods` added in turn.
pub open spec fn add_versions(acc: Seq<String>, mods: Seq<ModEntry>) -> Seq<String>
    decreases mods.len(),
{
    if mods.len() == 0 {
        acc
    } else {
        add_keys(add_versions(acc, mods.drop_last()), keys(mods.last().compatibility@))
    }
}

/// The loaders that each mod of `mods` has for `game_version`, added in turn.
pub open spec fn add_loaders(acc: Seq<String>, mods: Seq<ModEntry>, game_version: Seq<char>) -> Seq<
    String,
>
    decreases mods.len(),
{
    if mods.len() == 0 {
        acc
    } else {
        let acc2 = add_loaders(acc, mods.drop_last(), game_version);
        match lookup(mods.last().compatibility@, game_version) {
            Some(loaders) => add_keys(acc2, keys(loaders@)),
            None => acc2,
        }
    }
}

/// The game versions of the offered packs that resolve, in manifest order, each once.
pub open spec fn versions_from(packs: Seq<(String, Pack)>, prefix: Seq<(String, Pack)>) -> Seq<
    String,
>
    decreases prefix.len(),
{
    if prefix.len() == 0 {
        Seq::empty()
    } else {
        let acc = versions_from(packs, prefix.drop_last());
        let p = prefix.last();
        if is_core(p.1) {
            match resolution(packs, p.0@) {
                Ok(mods) => add_versions(acc, mods),
                Err(_) => acc,
            }
        } else {
            acc
        }
    }
}

/// The loaders for `game_version` of the offered packs that resolve, each once.
pub open spec fn loaders_from(
    packs: Seq<(String, Pack)>,
    prefix: Seq<(String, Pack)>,
    game_version: Seq<char>,
) -> Seq<String>
    decreases prefix.len(),
{
    if prefix.len() == 0 {
        Seq::empty()
    } else {
        let acc = loaders_from(packs, prefix.drop_last(), game_version);
        let p = prefix.last();
        if is_core(p.1) {
            match resolution(packs, p.0@) {
                Ok(mods) => add_loaders(acc, mods, game_version),
                Err(_) => acc,
            }
        } else {
            acc
        }
    }
}

/// The mod has a build for `game_version` and `loader`.
pub open spec fn compatible_spec(entry: ModEntry, game_version: Seq<char>, loader: Seq<char>) -> bool {
    match lookup(entry.compatibility@, game_version) {
        Some(loaders) => has_key(loaders@, loader),
        None => false,
    }
}

/// Some mod of `mods` has a build for `game_version` and `loader`.
pub open spec fn any_compatible(mods: Seq<ModEntry>, game_version: Seq<char>, loader: Seq<char>) -> bool {
    exists|i: int| 0 <= i < mods.len() && compatible_spec(#[trigger] mods[i], game_version, loader)
}

/// The offered packs that resolve and have a mod for `game_version` and `loader`, as
/// branches, in manifest order.
pub open spec fn branches_from(
    packs: Seq<(String, Pack)>,
    prefix: Seq<(String, Pack)>,
    game_version: Seq<char>,
    loader: Seq<char>,
) -> Seq<Branch>
    decreases prefix.len(),
{
    if prefix.len() == 0 {
        Seq::empty()
    } else {
        let acc = branches_from(packs, prefix.drop_last(), game_version, loader);
        let p = prefix.last();
        let offered = is_core(p.1) && match resolution(packs, p.0@) {
            Ok(mods) => any_compatible(mods, game_version, loader),
            Err(_) => false,
        };
        if offered {
            acc.push(Branch { id: p.0, display_name: p.1.display_name })
        } else {
            acc
        }
    }
}

impl PackConfig {
    /// The game versions offered, newest first.
    pub open spec fn game_versions_spec(self) -> Seq<String> {
        sort_spec(
            versions_from(self.packs_spec(), self.packs_spec()),
            |a: String, b: String| version_le(a@, b@),
        )
    }

    /// The loaders offered for `game_version`, Fabric, NeoForge and Forge first.
    pub open spec fn loaders_for_spec(self, game_version: Seq<char>) -> Seq<String> {
        sort_spec(
            loaders_from(self.packs_spec(), self.packs_spec(), game_version),
            |a: String, b: String| loader_le(a@, b@),
        )
    }

    /// The branches offered for `game_version` and `loader`, in rank order.
    pub open spec fn branches_for_spec(self, game_version: Seq<char>, loader: Seq<char>) -> Seq<
        Branch,
    > {
        sort_spec(
            branches_from(self.packs_spec(), self.packs_spec(), game_version, loader),
            |a: Branch, b: Branch| branch_le(a, b),
        )
    }
}

/// Adds each key of a keyed list that is not there yet.
fn add_keys_from<V>(acc: &mut Vec<String>, entries: &Vec<(String, V)>)
    ensures
        final(acc)@ == add_keys(old(acc)@, keys(entries@)),
{
    let ghost start = acc@;
    let mut i: usize = 0;
    while i < entries.len()
        invariant
            i <= entries.len(),
            acc@ == add_keys(start, keys(entries@).take(i as int)),
        decreases entries.len() - i,
    {
        assert(keys(entries@).take(i as int + 1).drop_last() =~= keys(entries@).take(i as int));
        assert(keys(entries@).take(i as int + 1).last() == entries@[i as int].0);
        if !contains_text(acc, entries[i].0.as_str()) {
            acc.push(entries[i].0.clone());
        }
        i = i + 1;
    }
    assert(keys(entries@).take(entries.len() as int) =~= keys(entries@));
}

/// Tells whether a pack is offered.
pub fn is_core_exec(pack: &Pack) -> (r: bool)
    ensures
        r == is_core(*pack),
{
    !same_text(pack.listing.category.as_str(), "partner")
}

/// Tells whether a mod has a build for `game_version` and `loader`.
pub fn compatible(entry: &ModEntry, game_version: &str, loader: &str) -> (r: bool)
    ensures
        r == compatible_spec(*entry, game_version@, loader@),
{
    match find_key(&entry.compatibility, game_version) {
        Some(loaders) => contains_key(loaders, loader),
        None => false,
    }
}

impl PackConfig {
    /// The game versions offered, newest first.
    pub fn game_versions(&self) -> (r: Vec<String>)
        ensures
            r@ == self.game_versions_spec(),
    {
        let packs = self.packs();
        let mut values: Vec<String> = Vec::new();
        let mut i: usize = 0;
        while i < packs.len()
            invariant
                packs@ == self.packs_spec(),
                i <= packs.len(),
                values@ == versions_from(packs@, packs@.take(i as int)),
            decreases packs.len() - i,
        {
            assert(packs@.take(i as int + 1).drop_last() =~= packs@.take(i as int));
            if is_core_exec(&packs[i].1) {
                match self.resolve_mods(packs[i].0.as_str()) {
                    Ok(mods) => {
                        let ghost start = values@;
                        let mut k: usize = 0;
                        while k < mods.len()
                            invariant
                                k <= mods.len(),
                                values@ == add_versions(start, derefs(mods@).take(k as int)),
                            decreases mods.len() - k,
                        {
                            assert(derefs(mods@).take(k as int + 1).drop_last() =~= derefs(
                                mods@,
                            ).take(k as int));
                            add_keys_from(&mut values, &mods[k].compatibility);
                            k = k + 1;
                        }
                        assert(derefs(mods@).take(k as int) =~= derefs(mods@));
                    },
                    Err(_) => {},
                }
            }
            i = i + 1;
        }
        assert(packs@.take(i as int) =~= packs@);
        let r = sort_by_order::<String, VersionOrder>(values);
        assert((|a: String, b: String| VersionOrder::le(a, b)) =~= (|a: String, b: String|
            version_le(a@, b@)));
        r
    }

    /// The loaders offered for `game_version`, Fabric, NeoForge and Forge first.
    pub fn loaders_for(&self, game_version: &str) -> (r: Vec<String>)
        ensures
            r@ == self.loaders_for_spec(game_version@),
    {
        let packs = self.packs();
        let mut values: Vec<String> = Vec::new();
        let mut i: usize = 0;
        while i < packs.len()
            invariant
                packs@ == self.packs_spec(),
                i <= packs.len(),
                values@ == loaders_from(packs@, packs@.take(i as int), game_version@),
            decreases packs.len() - i,
        {
            assert(packs@.take(i as int + 1).drop_last() =~= packs@.take(i as int));
            if is_core_exec(&packs[i].1) {
                match self.resolve_mods(packs[i].0.as_str()) {
                    Ok(mods) => {
                        let ghost start = values@;
                        let mut k: usize = 0;
                        while k < mods.len()
                            invariant
                                k <= mods.len(),
                                values@ == add_loaders(
                                    start,
                                    derefs(mods@).take(k as int),
                                    game_version@,
                                ),
                            decreases mods.len() - k,
                        {
                            assert(derefs(mods@).take(k as int + 1).drop_last() =~= derefs(
                                mods@,
                            ).take(k as int));
                            match find_key(&mods[k].compatibility, game_version) {
                                Some(loaders) => add_keys_from(&mut values, loaders),
                                None => {},
                            }
                            k = k + 1;
                        }
                        assert(derefs(mods@).take(k as int) =~= derefs(mods@));
                    },
                    Err(_) => {},
                }
            }
            i = i + 1;
        }
        assert(packs@.take(i as int) =~= packs@);
        let r = sort_by_order::<String, LoaderOrder>(values);
        assert((|a: String, b: String| LoaderOrder::le(a, b)) =~= (|a: String, b: String|
            loader_le(a@, b@)));
        r
    }

    /// The branches offered for `game_version` and `loader`, in rank order; no id occurs
    /// twice, and each carries the display name of the pack with its id.
    pub fn branches_for(&self, game_version: &str, loader: &str) -> (r: Vec<Branch>)
        ensures
            r@ == self.branches_for_spec(game_version@, loader@),
            forall|i: int, j: int| 0 <= i < j < r@.len() ==> (#[trigger] r@[i]).id@ != (#[trigger] r@[j]).id@,
            forall|b: Branch|
                #[trigger] r@.contains(b) ==> (lookup(self.packs_spec(), b.id@) matches Some(p)
                    && p.display_name == b.display_name),
    {
        let packs = self.packs();
        let mut values: Vec<Branch> = Vec::new();
        let mut i: usize = 0;
        while i < packs.len()
            invariant
                packs@ == self.packs_spec(),
                i <= packs.len(),
                values@ == branches_from(packs@, packs@.take(i as int), game_version@, loader@),
            decreases packs.len() - i,
        {
            assert(packs@.take(i as int + 1).drop_last() =~= packs@.take(i as int));
            let mut offered = false;
            if is_core_exec(&packs[i].1) {
                match self.resolve_mods(packs[i].0.as_str()) {
                    Ok(mods) => {
                        let mut k: usize = 0;
                        while k < mods.len() && !offered
                            invariant
                                k <= mods.len(),
                                offered ==> any_compatible(derefs(mods@), game_version@, loader@),
                                !offered ==> forall|j: int|
                                    0 <= j < k ==> !compatible_spec(
                                        #[trigger] derefs(mods@)[j],
                                        game_version@,
                                        loader@,
                                    ),
                            decreases mods.len() - k,
                        {
                            if compatible(mods[k], game_version, loader) {
                                assert(compatible_spec(
                                    derefs(mods@)[k as int],
                                    game_version@,
                                    loader@,
                                ));
                                offered = true;
                            }
                            k = k + 1;
                        }
                    },
                    Err(_) => {},
                }
            }
            if offered {
                values.push(
                    Branch { id: packs[i].0.clone(), display_name: packs[i].1.display_name.clone() },
                );
            }
            i = i + 1;
        }
        assert(packs@.take(i as int) =~= packs@);
        let r = sort_by_order::<Branch, BranchOrder>(values);
        assert((|a: Branch, b: Branch| BranchOrder::le(a, b)) =~= (|a: Branch, b: Branch|
            branch_le(a, b)));
        proof {
            use_type_invariant(self);
            lemma_branches_distinct(*self, game_version@, loader@);
        }
        r
    }
}

// ---------------------------------------------------------------------------------------------
// Laws of the offered choices.
// ---------------------------------------------------------------------------------------------

/// Game versions are ordered newest first by a total and transitive order.
pub proof fn lemma_version_order()
    ensures
        is_total(|a: Seq<char>, b: Seq<char>| version_le(a, b)),
        is_transitive(|a: Seq<char>, b: Seq<char>| version_le(a, b)),
{
    let le = |a: Seq<char>, b: Seq<char>| version_le(a, b);
    assert forall|a: Seq<char>, b: Seq<char>| #[trigger] le(a, b) || le(b, a) by {
        lemma_parts_lt_asymmetric(version_parts_spec(a), version_parts_spec(b));
    }
    assert forall|a: Seq<char>, b: Seq<char>, c: Seq<char>|
        #[trigger] le(a, b) && #[trigger] le(b, c) implies le(a, c) by {
        let (pa, pb, pc) = (version_parts_spec(a), version_parts_spec(b), version_parts_spec(c));
        lemma_parts_lt_total(pa, pb);
        if parts_lt(pa, pc) {
            if pa == pb {
            } else {
                lemma_parts_lt_transitive(pb, pa, pc);
            }
        }
    }
}

/// Loaders are ordered by rank, then by text, with a total and transitive order.
pub proof fn lemma_loader_order()
    ensures
        is_total(|a: Seq<char>, b: Seq<char>| loader_le(a, b)),
        is_transitive(|a: Seq<char>, b: Seq<char>| loader_le(a, b)),
{
    let le = |a: Seq<char>, b: Seq<char>| loader_le(a, b);
    assert forall|a: Seq<char>, b: Seq<char>| #[trigger] le(a, b) || le(b, a) by {
        lemma_text_lt_asymmetric(a, b);
    }
    assert forall|a: Seq<char>, b: Seq<char>, c: Seq<char>|
        #[trigger] le(a, b) && #[trigger] le(b, c) implies le(a, c) by {
        if loader_rank(a) == loader_rank(c) && text_lt(c, a) {
            lemma_text_lt_total(a, b);
            if a != b {
                lemma_text_lt_transitive(c, a, b);
            }
        }
    }
}

/// Branches are ordered by the rank of their id, then by id and display name, with a total
/// and transitive order.
pub proof fn lemma_branch_order()
    ensures
        is_total(|a: Branch, b: Branch| branch_le(a, b)),
        is_transitive(|a: Branch, b: Branch| branch_le(a, b)),
{
    let le = |a: Branch, b: Branch| branch_le(a, b);
    assert forall|a: Branch, b: Branch| #[trigger] le(a, b) || le(b, a) by {
        lemma_text_lt_total(a.id@, b.id@);
        lemma_text_lt_asymmetric(a.display_name@, b.display_name@);
    }
    assert forall|a: Branch, b: Branch, c: Branch|
        #[trigger] le(a, b) && #[trigger] le(b, c) implies le(a, c) by {
        if branch_rank(a.id@) == branch_rank(c.id@) {
            if text_lt(a.id@, b.id@) && text_lt(b.id@, c.id@) {
                lemma_text_lt_transitive(a.id@, b.id@, c.id@);
            }
            if text_lt(c.display_name@, a.display_name@) && a.id@ == c.id@ {
                lemma_text_lt_irreflexive(a.id@);
                lemma_text_lt_asymmetric(a.id@, b.id@);
                lemma_text_lt_total(a.display_name@, b.display_name@);
                if a.display_name@ != b.display_name@ {
                    lemma_text_lt_transitive(c.display_name@, a.display_name@, b.display_name@);
                }
            }
        }
    }
}

/// Sorting texts by an order on their views gives the views sorted, with no text twice
/// when there was none twice, and with the same texts.
proof fn lemma_sorted_texts(s: Seq<String>, le: spec_fn(Seq<char>, Seq<char>) -> bool)
    requires
        is_total(le),
        is_transitive(le),
        texts(s).no_duplicates(),
    ensures
        ({
            let r = texts(sort_spec(s, |a: String, b: String| le(a@, b@)));
            &&& r.no_duplicates()
            &&& is_sorted(r, le)
            &&& forall|x: Seq<char>| #[trigger] r.contains(x) <==> texts(s).contains(x)
        }),
{
    let le1 = |a: String, b: String| le(a@, b@);
    lemma_sort_map(s, |x: String| x@, le1, le);
    assert(texts(s) =~= s.map_values(|x: String| x@));
    assert(texts(sort_spec(s, le1)) =~= sort_spec(s, le1).map_values(|x: String| x@));
    lemma_sort_sorted(texts(s), le);
    lemma_sort_no_duplicates(texts(s), le);
    assert forall|x: Seq<char>| #[trigger] texts(sort_spec(s, le1)).contains(x) <==> texts(s).contains(x) by {
        lemma_sort_same_items(texts(s), le, x);
    }
}

proof fn lemma_add_keys(acc: Seq<String>, ks: Seq<String>)
    requires
        texts(acc).no_duplicates(),
    ensures
        texts(add_keys(acc, ks)).no_duplicates(),
        forall|x: Seq<char>| #[trigger] texts(add_keys(acc, ks)).contains(x) <==> (texts(acc).contains(x) || texts(ks).contains(x)),
    decreases ks.len(),
{
    if ks.len() > 0 {
        lemma_add_keys(acc, ks.drop_last());
        let inner = add_keys(acc, ks.drop_last());
        let k = ks.last();
        assert(texts(ks) =~= texts(ks.drop_last()).push(k@));
        if !texts(inner).contains(k@) {
            assert(texts(inner.push(k)) =~= texts(inner).push(k@));
        }
        assert forall|x: Seq<char>| #[trigger] texts(add_keys(acc, ks)).contains(x) <==> (texts(acc).contains(x) || texts(ks).contains(x)) by {
            if texts(ks).contains(x) && x != k@ {
                let j = choose|j: int| 0 <= j < texts(ks).len() && texts(ks)[j] == x;
                assert(texts(ks.drop_last())[j] == x);
            }
            if texts(ks.drop_last()).contains(x) {
                let j = choose|j: int| 0 <= j < texts(ks.drop_last()).len() && texts(ks.drop_last())[j] == x;
                assert(texts(ks)[j] == x);
            }
            if x == k@ {
                assert(texts(ks)[ks.len() - 1] == x);
            }
            if !texts(inner).contains(k@) && x == k@ {
                assert(texts(inner.push(k))[inner.len() as int] == x);
            }
            if !texts(inner).contains(k@) && texts(inner.push(k)).contains(x) && x != k@ {
                let j = choose|j: int| 0 <= j < texts(inner.push(k)).len() && texts(inner.push(k))[j] == x;
                assert(texts(inner)[j] == x);
            }
            if !texts(inner).contains(k@) && texts(inner).contains(x) {
                let j = choose|j: int| 0 <= j < texts(inner).len() && texts(inner)[j] == x;
                assert(texts(inner.push(k))[j] == x);
            }
        }
    }
}

proof fn lemma_key_texts<V>(entries: Seq<(String, V)>)
    ensures
        texts(keys(entries)) == keys_of(entries),
        forall|x: Seq<char>| #[trigger] texts(keys(entries)).contains(x) <==> has_key(entries, x),
{
    assert(texts(keys(entries)) =~= keys_of(entries));
    assert forall|x: Seq<char>| #[trigger] texts(keys(entries)).contains(x) <==> has_key(entries, x) by {
        if has_key(entries, x) {
            let i = choose|i: int| 0 <= i < entries.len() && entries[i].0@ == x;
            assert(texts(keys(entries))[i] == x);
        }
    }
}

/// Some mod of `mods` has a build for game version `v`.
pub open spec fn mods_name_version(mods: Seq<ModEntry>, v: Seq<char>) -> bool {
    exists|j: int| 0 <= j < mods.len() && has_key(#[trigger] mods[j].compatibility@, v)
}

/// Pack `p` is offered, resolves, and has a mod with a build for game version `v`.
pub open spec fn pack_offers_version(packs: Seq<(String, Pack)>, p: (String, Pack), v: Seq<char>) -> bool {
    is_core(p.1) && match resolution(packs, p.0@) {
        Ok(mods) => mods_name_version(mods, v),
        Err(_) => false,
    }
}

/// Pack `p` is offered, resolves, and has a mod with a build for `game_version` and
/// `loader`.
pub open spec fn pack_offers(
    packs: Seq<(String, Pack)>,
    p: (String, Pack),
    game_version: Seq<char>,
    loader: Seq<char>,
) -> bool {
    is_core(p.1) && match resolution(packs, p.0@) {
        Ok(mods) => any_compatible(mods, game_version, loader),
        Err(_) => false,
    }
}

proof fn lemma_add_versions(acc: Seq<String>, mods: Seq<ModEntry>)
    requires
        texts(acc).no_duplicates(),
    ensures
        texts(add_versions(acc, mods)).no_duplicates(),
        forall|x: Seq<char>| #[trigger] texts(add_versions(acc, mods)).contains(x) <==> (texts(acc).contains(x) || mods_name_version(mods, x)),
    decreases mods.len(),
{
    if mods.len() > 0 {
        lemma_add_versions(acc, mods.drop_last());
        let inner = add_versions(acc, mods.drop_last());
        let e = mods.last();
        lemma_add_keys(inner, keys(e.compatibility@));
        lemma_key_texts(e.compatibility@);
        assert forall|x: Seq<char>| #[trigger] texts(add_versions(acc, mods)).contains(x) <==> (texts(acc).contains(x) || mods_name_version(mods, x)) by {
            if mods_name_version(mods, x) {
                let j = choose|j: int| 0 <= j < mods.len() && has_key(#[trigger] mods[j].compatibility@, x);
                if j < mods.len() - 1 {
                    assert(mods.drop_last()[j] == mods[j]);
                    assert(mods_name_version(mods.drop_last(), x));
                }
            }
            if mods_name_version(mods.drop_last(), x) {
                let j = choose|j: int| 0 <= j < mods.drop_last().len() && has_key(#[trigger] mods.drop_last()[j].compatibility@, x);
                assert(mods[j] == mods.drop_last()[j]);
            }
            if has_key(e.compatibility@, x) {
                assert(mods[mods.len() - 1] == e);
            }
        }
    }
}

proof fn lemma_versions_from(packs: Seq<(String, Pack)>, prefix: Seq<(String, Pack)>)
    ensures
        texts(versions_from(packs, prefix)).no_duplicates(),
        forall|x: Seq<char>| #[trigger] texts(versions_from(packs, prefix)).contains(x) <==> exists|i: int| 0 <= i < prefix.len() && pack_offers_version(packs, #[trigger] prefix[i], x),
    decreases prefix.len(),
{
    if prefix.len() == 0 {
        assert(texts(Seq::<String>::empty()) =~= Seq::<Seq<char>>::empty());
    } else {
        lemma_versions_from(packs, prefix.drop_last());
        let acc = versions_from(packs, prefix.drop_last());
        let p = prefix.last();
        if is_core(p.1) {
            if let Ok(mods) = resolution(packs, p.0@) {
                lemma_add_versions(acc, mods);
            }
        }
        assert forall|x: Seq<char>| #[trigger] texts(versions_from(packs, prefix)).contains(x) <==> exists|i: int| 0 <= i < prefix.len() && pack_offers_version(packs, #[trigger] prefix[i], x) by {
            if exists|i: int| 0 <= i < prefix.len() && pack_offers_version(packs, #[trigger] prefix[i], x) {
                let i = choose|i: int| 0 <= i < prefix.len() && pack_offers_version(packs, #[trigger] prefix[i], x);
                if i < prefix.len() - 1 {
                    assert(prefix.drop_last()[i] == prefix[i]);
                }
            }
            if exists|i: int| 0 <= i < prefix.drop_last().len() && pack_offers_version(packs, #[trigger] prefix.drop_last()[i], x) {
                let i = choose|i: int| 0 <= i < prefix.drop_last().len() && pack_offers_version(packs, #[trigger] prefix.drop_last()[i], x);
                assert(prefix[i] == prefix.drop_last()[i]);
            }
            if pack_offers_version(packs, p, x) {
                assert(prefix[prefix.len() - 1] == p);
            }
        }
    }
}

/// The game versions offered are each offered once, newest first, and they are exactly the
/// game versions for which an offered pack that resolves has a mod with a build.
pub proof fn lemma_game_versions(config: PackConfig)
    ensures
        texts(config.game_versions_spec()).no_duplicates(),
        is_sorted(texts(config.game_versions_spec()), |a: Seq<char>, b: Seq<char>| version_le(a, b)),
        forall|v: Seq<char>| #[trigger] texts(config.game_versions_spec()).contains(v) <==> exists|i: int|
            0 <= i < config.packs_spec().len() && pack_offers_version(
                config.packs_spec(),
                #[trigger] config.packs_spec()[i],
                v,
            ),
{
    let packs = config.packs_spec();
    lemma_versions_from(packs, packs);
    lemma_version_order();
    let le = |a: Seq<char>, b: Seq<char>| version_le(a, b);
    lemma_sorted_texts(versions_from(packs, packs), le);
    assert((|a: String, b: String| le(a@, b@)) =~= (|a: String, b: String| version_le(a@, b@)));
}

proof fn lemma_add_loaders(acc: Seq<String>, mods: Seq<ModEntry>, game_version: Seq<char>)
    requires
        texts(acc).no_duplicates(),
    ensures
        texts(add_loaders(acc, mods, game_version)).no_duplicates(),
        forall|x: Seq<char>| #[trigger] texts(add_loaders(acc, mods, game_version)).contains(x) <==> (texts(acc).contains(x) || any_compatible(mods, game_version, x)),
    decreases mods.len(),
{
    if mods.len() > 0 {
        lemma_add_loaders(acc, mods.drop_last(), game_version);
        let inner = add_loaders(acc, mods.drop_last(), game_version);
        let e = mods.last();
        if let Some(loaders) = lookup(e.compatibility@, game_version) {
            lemma_add_keys(inner, keys(loaders@));
            lemma_key_texts(loaders@);
        }
        assert forall|x: Seq<char>| #[trigger] texts(add_loaders(acc, mods, game_version)).contains(x) <==> (texts(acc).contains(x) || any_compatible(mods, game_version, x)) by {
            if any_compatible(mods, game_version, x) {
                let j = choose|j: int| 0 <= j < mods.len() && compatible_spec(#[trigger] mods[j], game_version, x);
                if j < mods.len() - 1 {
                    assert(mods.drop_last()[j] == mods[j]);
                    assert(any_compatible(mods.drop_last(), game_version, x));
                }
            }
            if any_compatible(mods.drop_last(), game_version, x) {
                let j = choose|j: int| 0 <= j < mods.drop_last().len() && compatible_spec(#[trigger] mods.drop_last()[j], game_version, x);
                assert(mods[j] == mods.drop_last()[j]);
            }
            if compatible_spec(e, game_version, x) {
                assert(mods[mods.len() - 1] == e);
            }
        }
    }
}

proof fn lemma_loaders_from(packs: Seq<(String, Pack)>, prefix: Seq<(String, Pack)>, game_version: Seq<char>)
    ensures
        texts(loaders_from(packs, prefix, game_version)).no_duplicates(),
        forall|x: Seq<char>| #[trigger] texts(loaders_from(packs, prefix, game_version)).contains(x) <==> exists|i: int| 0 <= i < prefix.len() && pack_offers(packs, #[trigger] prefix[i], game_version, x),
    decreases prefix.len(),
{
    if prefix.len() == 0 {
        assert(texts(Seq::<String>::empty()) =~= Seq::<Seq<char>>::empty());
    } else {
        lemma_loaders_from(packs, prefix.drop_last(), game_version);
        let acc = loaders_from(packs, prefix.drop_last(), game_version);
        let p = prefix.last();
        if is_core(p.1) {
            if let Ok(mods) = resolution(packs, p.0@) {
                lemma_add_loaders(acc, mods, game_version);
            }
        }
        assert forall|x: Seq<char>| #[trigger] texts(loaders_from(packs, prefix, game_version)).contains(x) <==> exists|i: int| 0 <= i < prefix.len() && pack_offers(packs, #[trigger] prefix[i], game_version, x) by {
            if exists|i: int| 0 <= i < prefix.len() && pack_offers(packs, #[trigger] prefix[i], game_version, x) {
                let i = choose|i: int| 0 <= i < prefix.len() && pack_offers(packs, #[trigger] prefix[i], game_version, x);
                if i < prefix.len() - 1 {
                    assert(prefix.drop_last()[i] == prefix[i]);
                }
            }
            if exists|i: int| 0 <= i < prefix.drop_last().len() && pack_offers(packs, #[trigger] prefix.drop_last()[i], game_version, x) {
                let i = choose|i: int| 0 <= i < prefix.drop_last().len() && pack_offers(packs, #[trigger] prefix.drop_last()[i], game_version, x);
                assert(prefix[i] == prefix.drop_last()[i]);
            }
            if pack_offers(packs, p, game_version, x) {
                assert(prefix[prefix.len() - 1] == p);
            }
        }
    }
}

/// The loaders offered for a game version are each offered once, in rank order, and they
/// are exactly the loaders for which an offered pack that resolves has a mod with a build
/// for that game version.
pub proof fn lemma_loaders_for(config: PackConfig, game_version: Seq<char>)
    ensures
        texts(config.loaders_for_spec(game_version)).no_duplicates(),
        is_sorted(texts(config.loaders_for_spec(game_version)), |a: Seq<char>, b: Seq<char>| loader_le(a, b)),
        forall|l: Seq<char>| #[trigger] texts(config.loaders_for_spec(game_version)).contains(l) <==> exists|i: int|
            0 <= i < config.packs_spec().len() && pack_offers(
                config.packs_spec(),
                #[trigger] config.packs_spec()[i],
                game_version,
                l,
            ),
{
    let packs = config.packs_spec();
    lemma_loaders_from(packs, packs, game_version);
    lemma_loader_order();
    let le = |a: Seq<char>, b: Seq<char>| loader_le(a, b);
    lemma_sorted_texts(loaders_from(packs, packs, game_version), le);
    assert((|a: String, b: String| le(a@, b@)) =~= (|a: String, b: String| loader_le(a@, b@)));
}

proof fn lemma_branches_from(
    packs: Seq<(String, Pack)>,
    prefix: Seq<(String, Pack)>,
    game_version: Seq<char>,
    loader: Seq<char>,
)
    ensures
        forall|b: Branch| #[trigger] branches_from(packs, prefix, game_version, loader).contains(b) <==> exists|i: int|
            0 <= i < prefix.len() && pack_offers(packs, #[trigger] prefix[i], game_version, loader)
                && b == (Branch { id: prefix[i].0, display_name: prefix[i].1.display_name }),
    decreases prefix.len(),
{
    if prefix.len() > 0 {
        lemma_branches_from(packs, prefix.drop_last(), game_version, loader);
        let acc = branches_from(packs, prefix.drop_last(), game_version, loader);
        let p = prefix.last();
        let nb = Branch { id: p.0, display_name: p.1.display_name };
        assert forall|b: Branch| #[trigger] branches_from(packs, prefix, game_version, loader).contains(b) <==> exists|i: int|
            0 <= i < prefix.len() && pack_offers(packs, #[trigger] prefix[i], game_version, loader)
                && b == (Branch { id: prefix[i].0, display_name: prefix[i].1.display_name }) by {
            if exists|i: int|
                0 <= i < prefix.len() && pack_offers(packs, #[trigger] prefix[i], game_version, loader)
                    && b == (Branch { id: prefix[i].0, display_name: prefix[i].1.display_name }) {
                let i = choose|i: int|
                    0 <= i < prefix.len() && pack_offers(packs, #[trigger] prefix[i], game_version, loader)
                        && b == (Branch { id: prefix[i].0, display_name: prefix[i].1.display_name });
                if i < prefix.len() - 1 {
                    assert(prefix.drop_last()[i] == prefix[i]);
                    assert(acc.contains(b));
                    if pack_offers(packs, p, game_version, loader) {
                        let k = choose|k: int| 0 <= k < acc.len() && acc[k] == b;
                        assert(acc.push(nb)[k] == b);
                    }
                } else {
                    assert(acc.push(nb)[acc.len() as int] == b);
                }
            }
            if branches_from(packs, prefix, game_version, loader).contains(b) {
                if acc.contains(b) {
                    let i = choose|i: int|
                        0 <= i < prefix.drop_last().len() && pack_offers(packs, #[trigger] prefix.drop_last()[i], game_version, loader)
                            && b == (Branch { id: prefix.drop_last()[i].0, display_name: prefix.drop_last()[i].1.display_name });
                    assert(prefix[i] == prefix.drop_last()[i]);
                } else {
                    let k = choose|k: int| 0 <= k < acc.push(nb).len() && acc.push(nb)[k] == b;
                    if k < acc.len() {
                        assert(acc[k] == b);
                    }
                    assert(prefix[prefix.len() - 1] == p);
                }
            }
        }
    }
}

/// The branches offered for a game version and a loader are in rank order, and they are
/// exactly the offered packs that resolve and have a mod with a build for both, each named
/// by its id and display name.
pub proof fn lemma_branches_for(config: PackConfig, game_version: Seq<char>, loader: Seq<char>)
    ensures
        is_sorted(config.branches_for_spec(game_version, loader), |a: Branch, b: Branch| branch_le(a, b)),
        forall|b: Branch| #[trigger] config.branches_for_spec(game_version, loader).contains(b) <==> exists|i: int|
            0 <= i < config.packs_spec().len() && pack_offers(
                config.packs_spec(),
                #[trigger] config.packs_spec()[i],
                game_version,
                loader,
            ) && b == (Branch {
                id: config.packs_spec()[i].0,
                display_name: config.packs_spec()[i].1.display_name,
            }),
{
    let packs = config.packs_spec();
    let le = |a: Branch, b: Branch| branch_le(a, b);
    lemma_branches_from(packs, packs, game_version, loader);
    lemma_branch_order();
    lemma_sort_sorted(branches_from(packs, packs, game_version, loader), le);
    assert forall|b: Branch| #[trigger] config.branches_for_spec(game_version, loader).contains(b) <==> branches_from(packs, packs, game_version, loader).contains(b) by {
        lemma_sort_same_items(branches_from(packs, packs, game_version, loader), le, b);
    }
}

proof fn lemma_branches_from_ids(
    packs: Seq<(String, Pack)>,
    prefix: Seq<(String, Pack)>,
    game_version: Seq<char>,
    loader: Seq<char>,
)
    requires
        keys_of(prefix).no_duplicates(),
    ensures
        forall|i: int, j: int|
            0 <= i < j < branches_from(packs, prefix, game_version, loader).len() ==> (#[trigger] branches_from(packs, prefix, game_version, loader)[i]).id@
                != (#[trigger] branches_from(packs, prefix, game_version, loader)[j]).id@,
    decreases prefix.len(),
{
    if prefix.len() > 0 {
        let shorter = prefix.drop_last();
        assert(keys_of(shorter) =~= keys_of(prefix).drop_last());
        lemma_branches_from_ids(packs, shorter, game_version, loader);
        lemma_branches_from(packs, shorter, game_version, loader);
        let acc = branches_from(packs, shorter, game_version, loader);
        let r = branches_from(packs, prefix, game_version, loader);
        let last = prefix.len() - 1;
        assert forall|k: int| 0 <= k < acc.len() implies #[trigger] acc[k].id@ != prefix[last].0@ by {
            assert(acc.contains(acc[k]));
            let i = choose|i: int|
                0 <= i < shorter.len() && pack_offers(packs, #[trigger] shorter[i], game_version, loader)
                    && acc[k] == (Branch { id: shorter[i].0, display_name: shorter[i].1.display_name });
            assert(keys_of(prefix)[i] == shorter[i].0@);
            assert(keys_of(prefix)[last] == prefix[last].0@);
        }
        assert forall|i: int, j: int| 0 <= i < j < r.len() implies (#[trigger] r[i]).id@ != (#[trigger] r[j]).id@ by {
            if j == acc.len() {
                assert(r[i] == acc[i]);
            } else {
                assert(r[i] == acc[i] && r[j] == acc[j]);
            }
        }
    }
}

proof fn lemma_lookup_distinct<V>(entries: Seq<(String, V)>, i: int)
    requires
        keys_of(entries).no_duplicates(),
        0 <= i < entries.len(),
    ensures
        lookup(entries, entries[i].0@) == Some(entries[i].1),
{
    let key = entries[i].0@;
    assert forall|j: int| 0 <= j < i implies entries[j].0@ != key by {
        assert(keys_of(entries)[j] == entries[j].0@);
        assert(keys_of(entries)[i] == key);
    }
    assert(is_first_key(entries, key, i));
    let c = choose|c: int| is_first_key(entries, key, c);
    if c != i {
        assert(keys_of(entries)[c] == keys_of(entries)[i]);
    }
}

/// Since pack ids are distinct, the branches offered for a game version and a loader are in
/// strict rank order, by rank and then by id, so no id is offered twice; and each is named by
/// the display name of the pack with its id.
pub proof fn lemma_branches_distinct(config: PackConfig, game_version: Seq<char>, loader: Seq<char>)
    requires
        config.ids_distinct(),
    ensures
        ({
            let r = config.branches_for_spec(game_version, loader);
            &&& forall|i: int, j: int|
                0 <= i < j < r.len() ==> branch_rank((#[trigger] r[i]).id@) < branch_rank(
                    (#[trigger] r[j]).id@,
                ) || (branch_rank(r[i].id@) == branch_rank(r[j].id@) && text_lt(r[i].id@, r[j].id@))
            &&& forall|i: int, j: int| 0 <= i < j < r.len() ==> (#[trigger] r[i]).id@ != (#[trigger] r[j]).id@
            &&& forall|b: Branch|
                #[trigger] r.contains(b) ==> (lookup(config.packs_spec(), b.id@) matches Some(p)
                    && p.display_name == b.display_name)
        }),
{
    let packs = config.packs_spec();
    let le = |a: Branch, b: Branch| branch_le(a, b);
    let o = branches_from(packs, packs, game_version, loader);
    let r = config.branches_for_spec(game_version, loader);
    lemma_branches_from(packs, packs, game_version, loader);
    lemma_branches_from_ids(packs, packs, game_version, loader);
    lemma_branch_order();
    lemma_sort_sorted(o, le);
    assert(o.no_duplicates()) by {
        assert forall|i: int, j: int| 0 <= i < o.len() && 0 <= j < o.len() && i != j implies o[i] != o[j] by {
            if i < j {
                assert(o[i].id@ != o[j].id@);
            } else {
                assert(o[j].id@ != o[i].id@);
            }
        }
    }
    lemma_sort_no_duplicates(o, le);
    assert forall|b: Branch| #[trigger] r.contains(b) implies o.contains(b) by {
        lemma_sort_same_items(o, le, b);
    }
    assert forall|i: int, j: int| 0 <= i < j < r.len() implies (#[trigger] r[i]).id@ != (#[trigger] r[j]).id@ by {
        assert(r.contains(r[i]) && r.contains(r[j]));
        let a = choose|a: int| 0 <= a < o.len() && o[a] == r[i];
        let c = choose|c: int| 0 <= c < o.len() && o[c] == r[j];
        assert(r[i] != r[j]);
        if a < c {
            assert(o[a].id@ != o[c].id@);
        } else {
            assert(o[c].id@ != o[a].id@);
        }
    }
    assert forall|i: int, j: int| 0 <= i < j < r.len() implies branch_rank((#[trigger] r[i]).id@) < branch_rank(
        (#[trigger] r[j]).id@,
    ) || (branch_rank(r[i].id@) == branch_rank(r[j].id@) && text_lt(r[i].id@, r[j].id@)) by {
        assert(le(r[i], r[j]));
        assert(r[i].id@ != r[j].id@);
    }
    assert forall|b: Branch| #[trigger] r.contains(b) implies (lookup(packs, b.id@) matches Some(p)
        && p.display_name == b.display_name) by {
        assert(o.contains(b));
        let i = choose|i: int|
            0 <= i < packs.len() && pack_offers(packs, #[trigger] packs[i], game_version, loader)
                && b == (Branch { id: packs[i].0, display_name: packs[i].1.display_name });
        lemma_lookup_distinct(packs, i);
    }
}

} // verus!
