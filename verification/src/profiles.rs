use vstd::prelude::*;

use crate::json::{json_of, parse_json, Json};
use crate::model::{find_key, lookup};
use crate::paths::{
    has_drive, has_drive_exec, is_separator, is_separator_exec, same_folder, same_path, Platform,
};
use crate::sorting::{
    is_sorted, is_total, is_transitive, lemma_sort_same_items, lemma_sort_sorted, sort_by_order,
    sort_spec, SortOrder,
};
use crate::text::{
    chars_of, join2, join3, lemma_text_lt_asymmetric, lemma_text_lt_total, lemma_text_lt_transitive,
    same_text, text_less, text_lt,
};

verus! {

broadcast use vstd::seq_lib::group_seq_properties;

/// A launcher profile: its name, its launcher, and the path of its mods folder.
#[derive(Clone, PartialEq, Eq)]
pub struct GameProfile {
    pub name: String,
    pub launcher: String,
    pub mods_folder: String,
}

/// The mathematical value of a [`GameProfile`].
pub struct ProfileView {
    pub name: Seq<char>,
    pub launcher: Seq<char>,
    pub mods_folder: Seq<char>,
}

impl View for GameProfile {
    type V = ProfileView;

    open spec fn view(&self) -> ProfileView {
        ProfileView { name: self.name@, launcher: self.launcher@, mods_folder: self.mods_folder@ }
    }
}

/// The views of a list of profiles.
pub open spec fn pviews(s: Seq<GameProfile>) -> Seq<ProfileView> {
    s.map_values(|p: GameProfile| p@)
}

/// The text that names a profile in the profile list: its launcher, a middle dot, its name.
pub open spec fn label_spec(p: ProfileView) -> Seq<char> {
    p.launcher + " \u{b7} "@ + p.name
}

impl GameProfile {
    /// The text that names the profile in the profile list.
    pub fn label(&self) -> (r: String)
        ensures
            r@ == label_spec(self@),
    {
        join3(self.launcher.as_str(), " \u{b7} ", self.name.as_str())
    }
}

/// Profile `a` may stand before `b`: by launcher, then by name.
pub open spec fn profile_le(a: ProfileView, b: ProfileView) -> bool {
    text_lt(a.launcher, b.launcher) || (a.launcher == b.launcher && !text_lt(b.name, a.name))
}

/// Profiles, by launcher, then by name.
pub struct ProfileOrder;

impl SortOrder<GameProfile> for ProfileOrder {
    open spec fn le(a: GameProfile, b: GameProfile) -> bool {
        profile_le(a@, b@)
    }

    fn le_exec(a: &GameProfile, b: &GameProfile) -> (r: bool) {
        text_less(a.launcher.as_str(), b.launcher.as_str()) || (same_text(
            a.launcher.as_str(),
            b.launcher.as_str(),
        ) && !text_less(b.name.as_str(), a.name.as_str()))
    }
}

/// The profiles without each one whose mods folder is the same path as that of the profile
/// kept just before it (`Vec::dedup_by` on the mods folder).
pub open spec fn dedup_folders(s: Seq<ProfileView>, platform: Platform) -> Seq<ProfileView>
    decreases s.len(),
{
    if s.len() == 0 {
        s
    } else {
        let kept = dedup_folders(s.drop_last(), platform);
        if kept.len() > 0 && same_path(kept.last().mods_folder, s.last().mods_folder, platform) {
            kept
        } else {
            kept.push(s.last())
        }
    }
}

/// The profile list as it is shown: sorted by launcher and name, without a profile whose
/// mods folder repeats the one before it.
pub open spec fn ordered_profiles_spec(s: Seq<ProfileView>, platform: Platform) -> Seq<ProfileView> {
    dedup_folders(sort_spec(s, |a: ProfileView, b: ProfileView| profile_le(a, b)), platform)
}

/// Sorts the profiles by launcher and name, and drops each one whose mods folder repeats
/// the one before it.
pub fn order_profiles(profiles: Vec<GameProfile>, platform: Platform) -> (r: Vec<GameProfile>)
    ensures
        pviews(r@) == ordered_profiles_spec(pviews(profiles@), platform),
{
    let ghost unsorted = profiles@;
    let sorted = sort_by_order::<GameProfile, ProfileOrder>(profiles);
    proof {
        crate::sorting::lemma_sort_map(
            unsorted,
            |p: GameProfile| p@,
            |a: GameProfile, b: GameProfile| ProfileOrder::le(a, b),
            |a: ProfileView, b: ProfileView| profile_le(a, b),
        );
        assert(pviews(unsorted) =~= unsorted.map_values(|p: GameProfile| p@));
        assert(pviews(sorted@) =~= sorted@.map_values(|p: GameProfile| p@));
    }
    let ghost sv = pviews(sorted@);
    let mut rest = sorted;
    let mut kept: Vec<GameProfile> = Vec::new();
    let mut k: usize = 0;
    let n = rest.len();
    assert(sv.take(0) =~= Seq::<ProfileView>::empty());
    assert(pviews(rest@) =~= sv.skip(0));
    while rest.len() > 0
        invariant
            n == sv.len(),
            k + rest.len() == n,
            pviews(rest@) == sv.skip(k as int),
            pviews(kept@) == dedup_folders(sv.take(k as int), platform),
        decreases rest.len(),
    {
        let p = rest.remove(0);
        assert(sv.take(k as int + 1).drop_last() =~= sv.take(k as int));
        assert(p@ == sv[k as int]);
        assert(sv.take(k as int + 1).last() == p@);
        let repeats = kept.len() > 0 && same_folder(
            kept[kept.len() - 1].mods_folder.as_str(),
            p.mods_folder.as_str(),
            platform,
        );
        if !repeats {
            let ghost before = kept@;
            let ghost pv = p@;
            kept.push(p);
            assert(pviews(kept@) =~= pviews(before).push(pv));
        }
        k = k + 1;
        assert(pviews(rest@) =~= sv.skip(k as int));
    }
    assert(sv.take(k as int) =~= sv);
    kept
}

proof fn lemma_profile_order()
    ensures
        is_total(|a: ProfileView, b: ProfileView| profile_le(a, b)),
        is_transitive(|a: ProfileView, b: ProfileView| profile_le(a, b)),
{
    let le = |a: ProfileView, b: ProfileView| profile_le(a, b);
    assert forall|a: ProfileView, b: ProfileView| #[trigger] le(a, b) || le(b, a) by {
        lemma_text_lt_total(a.launcher, b.launcher);
        lemma_text_lt_asymmetric(a.name, b.name);
    }
    assert forall|a: ProfileView, b: ProfileView, c: ProfileView|
        #[trigger] le(a, b) && #[trigger] le(b, c) implies le(a, c) by {
        lemma_text_lt_asymmetric(a.launcher, b.launcher);
        lemma_text_lt_asymmetric(b.launcher, c.launcher);
        if text_lt(a.launcher, b.launcher) && text_lt(b.launcher, c.launcher) {
            lemma_text_lt_transitive(a.launcher, b.launcher, c.launcher);
        }
        if a.launcher == c.launcher && text_lt(c.name, a.name) {
            crate::text::lemma_text_lt_irreflexive(a.launcher);
            lemma_text_lt_total(a.name, b.name);
            if a.name != b.name {
                lemma_text_lt_transitive(c.name, a.name, b.name);
            }
        }
    }
}

proof fn lemma_dedup_folders(s: Seq<ProfileView>, le: spec_fn(ProfileView, ProfileView) -> bool, platform: Platform)
    ensures
        forall|i: int|
            0 <= i && i + 1 < dedup_folders(s, platform).len() ==> !same_path(
                #[trigger] dedup_folders(s, platform)[i].mods_folder,
                dedup_folders(s, platform)[i + 1].mods_folder,
                platform,
            ),
        forall|x: ProfileView| #[trigger] dedup_folders(s, platform).contains(x) ==> s.contains(x),
        forall|i: int|
            0 <= i < s.len() ==> exists|j: int|
                0 <= j < dedup_folders(s, platform).len() && same_path(
                    #[trigger] dedup_folders(s, platform)[j].mods_folder,
                    #[trigger] s[i].mods_folder,
                    platform,
                ),
        is_sorted(s, le) ==> is_sorted(dedup_folders(s, platform), le),
    decreases s.len(),
{
    if s.len() > 0 {
        let p = s.drop_last();
        lemma_dedup_folders(p, le, platform);
        let kept = dedup_folders(p, platform);
        let x = s.last();
        assert forall|y: ProfileView| #[trigger] dedup_folders(s, platform).contains(y) implies s.contains(y) by {
            if kept.contains(y) {
                let k = choose|k: int| 0 <= k < p.len() && p[k] == y;
                assert(s[k] == y);
            } else {
                assert(s[s.len() - 1] == y);
            }
        }
        assert forall|i: int| 0 <= i < s.len() implies exists|j: int|
            0 <= j < dedup_folders(s, platform).len() && same_path(
                #[trigger] dedup_folders(s, platform)[j].mods_folder,
                #[trigger] s[i].mods_folder,
                platform,
            ) by {
            if i < p.len() {
                assert(p[i] == s[i]);
                let j = choose|j: int|
                    0 <= j < kept.len() && same_path(
                        #[trigger] kept[j].mods_folder,
                        #[trigger] p[i].mods_folder,
                        platform,
                    );
                assert(dedup_folders(s, platform)[j] == kept[j]);
                assert(same_path(dedup_folders(s, platform)[j].mods_folder, s[i].mods_folder, platform));
            } else {
                if kept.len() > 0 && same_path(kept.last().mods_folder, x.mods_folder, platform) {
                    assert(dedup_folders(s, platform)[kept.len() - 1] == kept.last());
                    assert(same_path(dedup_folders(s, platform)[kept.len() - 1].mods_folder, s[i].mods_folder, platform));
                } else {
                    assert(dedup_folders(s, platform)[kept.len() as int] == x);
                    assert(same_path(dedup_folders(s, platform)[kept.len() as int].mods_folder, s[i].mods_folder, platform));
                }
            }
        }
        if is_sorted(s, le) {
            assert(is_sorted(p, le));
            assert forall|i: int, j: int| 0 <= i < j < dedup_folders(s, platform).len() implies le(#[trigger] dedup_folders(s, platform)[i], #[trigger] dedup_folders(s, platform)[j]) by {
                if j == kept.len() {
                    assert(kept.contains(kept[i]));
                    let k = choose|k: int| 0 <= k < p.len() && p[k] == kept[i];
                    assert(s[k] == kept[i]);
                } else {
                    assert(dedup_folders(s, platform)[i] == kept[i]);
                    assert(dedup_folders(s, platform)[j] == kept[j]);
                }
            }
        }
    }
}

/// The profile list as it is shown is sorted by launcher and name; no profile in it has
/// the same mods folder path as the one before it; each profile in it is one of the given
/// ones, and each mods folder of the given profiles is, as a path, that of one in it.
pub proof fn lemma_ordered_profiles(s: Seq<ProfileView>, platform: Platform)
    ensures
        ({
            let r = ordered_profiles_spec(s, platform);
            &&& is_sorted(r, |a: ProfileView, b: ProfileView| profile_le(a, b))
            &&& forall|i: int| 0 <= i && i + 1 < r.len() ==> !same_path(#[trigger] r[i].mods_folder, r[i + 1].mods_folder, platform)
            &&& forall|x: ProfileView| #[trigger] r.contains(x) ==> s.contains(x)
            &&& forall|i: int| 0 <= i < s.len() ==> exists|j: int| 0 <= j < r.len() && same_path(#[trigger] r[j].mods_folder, #[trigger] s[i].mods_folder, platform)
        }),
{
    let le = |a: ProfileView, b: ProfileView| profile_le(a, b);
    let sorted = sort_spec(s, le);
    lemma_profile_order();
    lemma_sort_sorted(s, le);
    lemma_dedup_folders(sorted, le, platform);
    let r = ordered_profiles_spec(s, platform);
    assert forall|x: ProfileView| #[trigger] r.contains(x) implies s.contains(x) by {
        lemma_sort_same_items(s, le, x);
    }
    assert forall|i: int| 0 <= i < s.len() implies exists|j: int| 0 <= j < r.len() && same_path(#[trigger] r[j].mods_folder, #[trigger] s[i].mods_folder, platform) by {
        lemma_sort_same_items(s, le, s[i]);
        assert(s.contains(s[i]));
        let k = choose|k: int| 0 <= k < sorted.len() && sorted[k] == s[i];
        let j = choose|j: int| 0 <= j < r.len() && same_path(#[trigger] r[j].mods_folder, #[trigger] sorted[k].mods_folder, platform);
    }
}

// ---------------------------------------------------------------------------------------------
// Instance names.
// ---------------------------------------------------------------------------------------------

/// `i` is the position of the first line feed of `s`.
pub open spec fn is_first_newline(s: Seq<char>, i: int) -> bool {
    &&& 0 <= i < s.len()
    &&& s[i] == '\n'
    &&& forall|j: int| 0 <= j < i ==> s[j] != '\n'
}

/// A line without the carriage return that ended it.
pub open spec fn strip_cr(line: Seq<char>) -> Seq<char> {
    if line.len() > 0 && line.last() == '\r' {
        line.drop_last()
    } else {
        line
    }
}

/// The lines of a text as `str::lines` gives them: split at each line feed, a carriage
/// return just before it removed, no empty line after a final line feed.
pub open spec fn lines(s: Seq<char>) -> Seq<Seq<char>>
    decreases s.len(),
{
    if s.len() == 0 {
        Seq::empty()
    } else if exists|i: int| is_first_newline(s, i) {
        let i = choose|i: int| is_first_newline(s, i);
        seq![strip_cr(s.take(i))] + lines(s.skip(i + 1))
    } else {
        seq![s]
    }
}

/// `line` starts with `prefix`.
pub open spec fn starts_with(line: Seq<char>, prefix: Seq<char>) -> bool {
    prefix.len() <= line.len() && line.take(prefix.len() as int) == prefix
}

/// What follows `name=` on the first line that starts with it.
pub open spec fn configured_name_in(ls: Seq<Seq<char>>) -> Option<Seq<char>>
    decreases ls.len(),
{
    if ls.len() == 0 {
        None
    } else if starts_with(ls[0], "name="@) {
        Some(ls[0].skip(5))
    } else {
        configured_name_in(ls.drop_first())
    }
}

/// The name of an instance: the one its configuration gives, or else the name of its
/// folder, or else `Unnamed profile`.
pub open spec fn instance_name_spec(config: Option<Seq<char>>, folder_name: Option<Seq<char>>) -> Seq<
    char,
> {
    let configured = match config {
        Some(text) => configured_name_in(lines(text)),
        None => None,
    };
    match configured {
        Some(name) => name,
        None => match folder_name {
            Some(f) => f,
            None => "Unnamed profile"@,
        },
    }
}

/// Tells whether `line` starts with `name=`.
fn starts_with_name(chars: &Vec<char>, start: usize, end: usize) -> (r: bool)
    requires
        start <= end <= chars.len(),
    ensures
        r == starts_with(chars@.subrange(start as int, end as int), "name="@),
        r ==> start + 5 <= end,
{
    proof {
        reveal_strlit("name=");
    }
    let ghost line = chars@.subrange(start as int, end as int);
    if end - start < 5 {
        return false;
    }
    let r = chars[start] == 'n' && chars[start + 1] == 'a' && chars[start + 2] == 'm' && chars[start
        + 3] == 'e' && chars[start + 4] == '=';
    proof {
        if r {
            assert(line.take(5) =~= "name="@);
        }
        if starts_with(line, "name="@) {
            assert(line.take(5)[0] == 'n');
            assert(line.take(5)[1] == 'a');
            assert(line.take(5)[2] == 'm');
            assert(line.take(5)[3] == 'e');
            assert(line.take(5)[4] == '=');
        }
    }
    r
}

/// What follows `name=` on the first line of an instance configuration that starts with
/// it.
pub fn configured_name(contents: &str) -> (r: Option<String>)
    ensures
        r matches Some(n) ==> configured_name_in(lines(contents@)) == Some(n@),
        r is None ==> configured_name_in(lines(contents@)) is None,
{
    let chars = chars_of(contents);
    let n = chars.len();
    let ghost s = contents@;
    let mut p: usize = 0;
    assert(s.skip(0) =~= s);
    while p < n
        invariant
            s == contents@,
            chars@ == s,
            n == s.len(),
            p <= n,
            configured_name_in(lines(s)) == configured_name_in(lines(s.skip(p as int))),
        decreases n - p,
    {
        let ghost rest = s.skip(p as int);
        let mut q: usize = p;
        while q < n && chars[q] != '\n'
            invariant
                chars@ == s,
                n == s.len(),
                p <= q <= n,
                forall|j: int| p <= j < q ==> s[j] != '\n',
            decreases n - q,
        {
            q = q + 1;
        }
        let newline = q < n;
        let mut end = q;
        if newline && q > p && chars[q - 1] == '\r' {
            end = q - 1;
        }
        proof {
            if newline {
                assert(is_first_newline(rest, q - p));
                let c = choose|c: int| is_first_newline(rest, c);
                assert(c == q - p) by {
                    if c < q - p {
                        assert(rest[c] == s[p + c]);
                    }
                    if c > q - p {
                        assert(rest[q - p] == s[q as int]);
                    }
                }
                assert(rest.take(q - p) =~= s.subrange(p as int, q as int));
                assert(strip_cr(rest.take(q - p)) =~= s.subrange(p as int, end as int));
                assert(rest.skip(q - p + 1) =~= s.skip(q + 1));
                assert(lines(rest) == seq![s.subrange(p as int, end as int)] + lines(
                    s.skip(q + 1),
                ));
            } else {
                assert(!exists|c: int| is_first_newline(rest, c)) by {
                    if exists|c: int| is_first_newline(rest, c) {
                        let c = choose|c: int| is_first_newline(rest, c);
                        assert(rest[c] == s[p + c]);
                    }
                }
                assert(rest =~= s.subrange(p as int, end as int));
                assert(lines(rest) == seq![s.subrange(p as int, end as int)]);
            }
        }
        if starts_with_name(&chars, p, end) {
            let name = contents.substring_char(p + 5, end);
            proof {
                let line = s.subrange(p as int, end as int);
                assert(line.skip(5) =~= s.subrange(p + 5, end as int));
                if newline {
                    assert((seq![line] + lines(s.skip(q + 1)))[0] == line);
                }
            }
            return Some(String::from_str(name));
        }
        proof {
            let line = s.subrange(p as int, end as int);
            if newline {
                assert((seq![line] + lines(s.skip(q + 1))).drop_first() =~= lines(s.skip(q + 1)));
            } else {
                assert(seq![line].drop_first() =~= Seq::<Seq<char>>::empty());
                assert(s.skip(n as int) =~= Seq::<char>::empty());
            }
        }
        if newline {
            p = q + 1;
        } else {
            p = n;
        }
    }
    assert(s.skip(n as int) =~= Seq::<char>::empty());
    None
}

/// The name of an instance: the one its configuration gives, or else the name of its
/// folder, or else `Unnamed profile`.
pub fn instance_name(config: Option<&str>, folder_name: Option<&str>) -> (r: String)
    ensures
        r@ == instance_name_spec(
            match config {
                Some(c) => Some(c@),
                None => None,
            },
            match folder_name {
                Some(f) => Some(f@),
                None => None,
            },
        ),
{
    let configured = match config {
        Some(text) => configured_name(text),
        None => None,
    };
    match configured {
        Some(name) => name,
        None => match folder_name {
            Some(f) => String::from_str(f),
            None => String::from_str("Unnamed profile"),
        },
    }
}

// ---------------------------------------------------------------------------------------------
// Profiles of each launcher.
// ---------------------------------------------------------------------------------------------

/// The name of a profile of the official launcher: the one it gives if it is not empty,
/// or else `Custom profile`.
pub open spec fn official_name_spec(name: Option<Seq<char>>) -> Seq<char> {
    match name {
        Some(n) => if n.len() > 0 {
            n
        } else {
            "Custom profile"@
        },
        None => "Custom profile"@,
    }
}

/// The default profile of the official launcher, for its mods folder.
pub fn official_default_profile(mods_folder: String) -> (r: GameProfile)
    ensures
        r@ == (ProfileView {
            name: "Default profile"@,
            launcher: "Minecraft Launcher"@,
            mods_folder: mods_folder@,
        }),
{
    GameProfile {
        name: String::from_str("Default profile"),
        launcher: String::from_str("Minecraft Launcher"),
        mods_folder,
    }
}

/// A profile that the official launcher lists, with its name (if it gives one) and its
/// mods folder.
pub fn official_profile(name: Option<&str>, mods_folder: String) -> (r: GameProfile)
    ensures
        r@ == (ProfileView {
            name: official_name_spec(
                match name {
                    Some(n) => Some(n@),
                    None => None,
                },
            ),
            launcher: "Minecraft Launcher"@,
            mods_folder: mods_folder@,
        }),
{
    let name = match name {
        Some(n) => if n.is_empty() {
            String::from_str("Custom profile")
        } else {
            String::from_str(n)
        },
        None => String::from_str("Custom profile"),
    };
    GameProfile { name, launcher: String::from_str("Minecraft Launcher"), mods_folder }
}

/// The `mods` folder inside folder `dir`, as joining the paths gives it on `platform`: the
/// platform's separator (`/`, or `\` on Windows) goes between them unless `dir` is empty,
/// already ends with a separator, or is a bare Windows drive such as `C:`.
pub open spec fn mods_folder_in(dir: Seq<char>, platform: Platform) -> Seq<char> {
    let bare_drive = has_drive(dir, platform) && dir.len() == 2;
    if dir.len() > 0 && !is_separator(dir.last(), platform) && !bare_drive {
        dir + (if platform == Platform::Windows { "\\mods"@ } else { "/mods"@ })
    } else {
        dir + "mods"@
    }
}

/// The `mods` folder inside folder `dir` on `platform`.
pub fn mods_folder_of(dir: &str, platform: Platform) -> (r: String)
    ensures
        r@ == mods_folder_in(dir@, platform),
{
    proof {
        reveal_strlit("/mods");
        reveal_strlit("\\mods");
        reveal_strlit("mods");
    }
    let n = dir.unicode_len();
    let bare_drive = has_drive_exec(dir, platform) && n == 2;
    if n > 0 && !is_separator_exec(dir.get_char(n - 1), platform) && !bare_drive {
        if platform == Platform::Windows {
            join2(dir, "\\mods")
        } else {
            join2(dir, "/mods")
        }
    } else {
        join2(dir, "mods")
    }
}

/// The text of an optional string.
pub open spec fn opt_text(o: Option<String>) -> Option<Seq<char>> {
    match o {
        Some(s) => Some(s@),
        None => None,
    }
}

/// The entries of the official launcher's profile list, as texts: each its name and its game
/// folder, either of which may be missing.
pub open spec fn entry_views(v: Seq<(Option<String>, Option<String>)>) -> Seq<
    (Option<Seq<char>>, Option<Seq<char>>),
> {
    v.map_values(|e: (Option<String>, Option<String>)| (opt_text(e.0), opt_text(e.1)))
}

/// The entries read from a profile list, as texts, if it could be read.
pub open spec fn entries_view(r: Option<Vec<(Option<String>, Option<String>)>>) -> Option<
    Seq<(Option<Seq<char>>, Option<Seq<char>>)>,
> {
    match r {
        Some(v) => Some(entry_views(v@)),
        None => None,
    }
}

/// The text of member `key` of a JSON object, if the value is an object with such a member
/// and that member is a text.
pub open spec fn text_member(value: Json, key: Seq<char>) -> Option<Seq<char>> {
    match value {
        Json::Object(members) => match lookup(members@, key) {
            Some(Json::Text(t)) => Some(t@),
            _ => None,
        },
        _ => None,
    }
}

/// The entries of the official launcher's profile list in its JSON: for each member of the
/// `profiles` object, in order, the member's `name` and `gameDir` where they are texts;
/// nothing where the JSON is not an object whose `profiles` member is an object.
pub open spec fn launcher_entries_spec(root: Json) -> Option<
    Seq<(Option<Seq<char>>, Option<Seq<char>>)>,
> {
    match root {
        Json::Object(members) => match lookup(members@, "profiles"@) {
            Some(Json::Object(profiles)) => Some(
                profiles@.map_values(
                    |p: (String, Json)| (text_member(p.1, "name"@), text_member(p.1, "gameDir"@)),
                ),
            ),
            _ => None,
        },
        _ => None,
    }
}

/// The text of member `key` of a JSON object.
fn text_member_exec(value: &Json, key: &str) -> (r: Option<String>)
    ensures
        opt_text(r) == text_member(*value, key@),
{
    match value {
        Json::Object(members) => match find_key(members, key) {
            Some(Json::Text(t)) => Some(t.clone()),
            _ => None,
        },
        _ => None,
    }
}

/// The entries of the official launcher's profile list in its JSON.
pub fn launcher_entries_from(root: &Json) -> (r: Option<Vec<(Option<String>, Option<String>)>>)
    ensures
        entries_view(r) == launcher_entries_spec(*root),
{
    proof {
        reveal_strlit("profiles");
        reveal_strlit("name");
        reveal_strlit("gameDir");
    }
    let members = match root {
        Json::Object(members) => members,
        _ => {
            return None;
        },
    };
    let profiles = match find_key(members, "profiles") {
        Some(Json::Object(profiles)) => profiles,
        _ => {
            return None;
        },
    };
    let ghost want = profiles@.map_values(
        |p: (String, Json)| (text_member(p.1, "name"@), text_member(p.1, "gameDir"@)),
    );
    let mut r: Vec<(Option<String>, Option<String>)> = Vec::new();
    let mut i: usize = 0;
    while i < profiles.len()
        invariant
            i <= profiles.len(),
            want == profiles@.map_values(
                |p: (String, Json)| (text_member(p.1, "name"@), text_member(p.1, "gameDir"@)),
            ),
            entry_views(r@) == want.take(i as int),
        decreases profiles.len() - i,
    {
        let name = text_member_exec(&profiles[i].1, "name");
        let dir = text_member_exec(&profiles[i].1, "gameDir");
        let ghost before = r@;
        r.push((name, dir));
        assert(entry_views(r@) =~= entry_views(before).push(want[i as int]));
        assert(want.take(i as int + 1) =~= want.take(i as int).push(want[i as int]));
        i = i + 1;
    }
    assert(want.take(i as int) =~= want);
    Some(r)
}

/// The profiles of the official launcher's profile list: one for each entry that has a game
/// folder, in order, named as `official_name_spec` says, with the `mods` folder inside it.
pub open spec fn official_profiles_spec(entries: Seq<(Option<Seq<char>>, Option<Seq<char>>)>, platform: Platform) -> Seq<
    ProfileView,
>
    decreases entries.len(),
{
    if entries.len() == 0 {
        Seq::empty()
    } else {
        let rest = official_profiles_spec(entries.drop_last(), platform);
        match entries.last().1 {
            Some(dir) => rest.push(
                ProfileView {
                    name: official_name_spec(entries.last().0),
                    launcher: "Minecraft Launcher"@,
                    mods_folder: mods_folder_in(dir, platform),
                },
            ),
            None => rest,
        }
    }
}

/// The profiles of the entries of the official launcher's profile list that have a game
/// folder, in order.
pub fn official_profiles(entries: &Vec<(Option<String>, Option<String>)>, platform: Platform) -> (r:
    Vec<GameProfile>)
    ensures
        pviews(r@) == official_profiles_spec(entry_views(entries@), platform),
{
    let mut r: Vec<GameProfile> = Vec::new();
    let mut i: usize = 0;
    assert(entry_views(entries@).take(0) =~= Seq::<(Option<Seq<char>>, Option<Seq<char>>)>::empty());
    assert(pviews(r@) =~= Seq::<ProfileView>::empty());
    while i < entries.len()
        invariant
            i <= entries.len(),
            pviews(r@) == official_profiles_spec(entry_views(entries@).take(i as int), platform),
        decreases entries.len() - i,
    {
        let ghost es = entry_views(entries@);
        assert(es.take(i as int + 1).drop_last() =~= es.take(i as int));
        assert(es.take(i as int + 1).last() == es[i as int]);
        match &entries[i].1 {
            Some(dir) => {
                let name: Option<&str> = match &entries[i].0 {
                    Some(n) => Some(n.as_str()),
                    None => None,
                };
                let p = official_profile(name, mods_folder_of(dir.as_str(), platform));
                let ghost before = r@;
                let ghost pv = p@;
                r.push(p);
                assert(pviews(r@) =~= pviews(before).push(pv));
            },
            None => {},
        }
        i = i + 1;
    }
    assert(entry_views(entries@).take(i as int) =~= entry_views(entries@));
    r
}

/// The profiles that the official launcher's `launcher_profiles.json` lists, from its bytes;
/// none where they are not JSON, or not such a list.
pub fn launcher_profiles(data: &[u8], platform: Platform) -> (r: Vec<GameProfile>)
    ensures
        pviews(r@) == match json_of(data@) {
            Some(root) => match launcher_entries_spec(root) {
                Some(entries) => official_profiles_spec(entries, platform),
                None => Seq::empty(),
            },
            None => Seq::empty(),
        },
{
    let entries = match parse_json(data) {
        Some(root) => launcher_entries_from(&root),
        None => None,
    };
    match entries {
        Some(entries) => official_profiles(&entries, platform),
        None => {
            let r: Vec<GameProfile> = Vec::new();
            assert(pviews(r@) =~= Seq::<ProfileView>::empty());
            r
        },
    }
}

/// The profile of an instance folder of a Prism-style launcher, which holds an instance when
/// it has an `instance.cfg` or an `mmc-pack.json` file.
pub fn prism_profile(
    launcher: &str,
    has_instance_cfg: bool,
    has_mmc_pack: bool,
    name: String,
    mods_folder: String,
) -> (r: Option<GameProfile>)
    ensures
        r is Some <==> has_instance_cfg || has_mmc_pack,
        r matches Some(p) ==> p@ == (ProfileView {
            name: name@,
            launcher: launcher@,
            mods_folder: mods_folder@,
        }),
{
    if !has_instance_cfg && !has_mmc_pack {
        return None;
    }
    Some(GameProfile { name, launcher: String::from_str(launcher), mods_folder })
}

/// The profile of an instance folder of a launcher that marks its instances with a file
/// (`marker_present` tells whether the folder has it) or not at all (`None`).
pub fn simple_profile(
    launcher: &str,
    marker_present: Option<bool>,
    name: String,
    mods_folder: String,
) -> (r: Option<GameProfile>)
    ensures
        r is Some <==> marker_present != Some(false),
        r matches Some(p) ==> p@ == (ProfileView {
            name: name@,
            launcher: launcher@,
            mods_folder: mods_folder@,
        }),
{
    match marker_present {
        Some(false) => None,
        _ => Some(GameProfile { name, launcher: String::from_str(launcher), mods_folder }),
    }
}

/// Selects the first profile whose mods folder is the same path as `mods_folder`, adding a
/// `Custom` profile with name `name` for it if there is none; gives the index of the
/// selected profile.
pub fn add_custom_profile(
    profiles: &mut Vec<GameProfile>,
    mods_folder: String,
    name: String,
    platform: Platform,
) -> (r: usize)
    ensures
        (exists|i: int|
            0 <= i < old(profiles)@.len() && same_path(old(profiles)@[i].mods_folder@, mods_folder@, platform)) ==> {
            &&& final(profiles)@ == old(profiles)@
            &&& r < old(profiles)@.len()
            &&& same_path(old(profiles)@[r as int].mods_folder@, mods_folder@, platform)
            &&& forall|j: int| 0 <= j < r ==> !same_path(old(profiles)@[j].mods_folder@, mods_folder@, platform)
        },
        !(exists|i: int|
            0 <= i < old(profiles)@.len() && same_path(old(profiles)@[i].mods_folder@, mods_folder@, platform)) ==> {
            &&& pviews(final(profiles)@) == pviews(old(profiles)@).push(
                ProfileView { name: name@, launcher: "Custom"@, mods_folder: mods_folder@ },
            )
            &&& r == old(profiles)@.len()
        },
{
    let mut i: usize = 0;
    while i < profiles.len()
        invariant
            profiles@ == old(profiles)@,
            i <= profiles.len(),
            forall|j: int| 0 <= j < i ==> !same_path(profiles@[j].mods_folder@, mods_folder@, platform),
        decreases profiles.len() - i,
    {
        if same_folder(profiles[i].mods_folder.as_str(), mods_folder.as_str(), platform) {
            return i;
        }
        i = i + 1;
    }
    let ghost before = profiles@;
    let p = GameProfile { name, launcher: String::from_str("Custom"), mods_folder };
    let ghost pv = p@;
    profiles.push(p);
    assert(pviews(profiles@) =~= pviews(before).push(pv));
    profiles.len() - 1
}

} // verus!
