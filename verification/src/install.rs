use vstd::prelude::*;

use crate::paths::Platform;
use crate::download::{download_spec, validate_filename, DownloadView};
use crate::error::{Fault, PackError};
use crate::model::{
    contains_text, find_key, lookup, texts, CompatibilityTarget, Download, InstalledPack,
    ModEntry, PackConfig,
};
use crate::resolve::{derefs, resolution};
use crate::sorting::{
    is_sorted, is_total, is_transitive, lemma_sort_map, lemma_sort_sorted, sort_by_order,
    sort_spec, SortOrder,
};
use crate::text::{
    is_safe_filename, lemma_text_lt_asymmetric, lemma_text_lt_total, lemma_text_lt_transitive,
    same_text, text_less, text_lt,
};

verus! {

broadcast use vstd::seq_lib::group_seq_properties;

/// The views of a list of downloads.
pub open spec fn dviews(s: Seq<Download>) -> Seq<DownloadView> {
    s.map_values(|d: Download| d@)
}

/// Download `a` may stand before `b`: by file name.
pub open spec fn filename_le(a: DownloadView, b: DownloadView) -> bool {
    !text_lt(b.filename, a.filename)
}

/// Downloads, by file name.
pub struct FilenameOrder;

impl SortOrder<Download> for FilenameOrder {
    open spec fn le(a: Download, b: Download) -> bool {
        filename_le(a@, b@)
    }

    fn le_exec(a: &Download, b: &Download) -> (r: bool) {
        !text_less(b.filename.as_str(), a.filename.as_str())
    }
}

/// The build of a mod for `game_version` and `loader`.
pub open spec fn target_of(entry: ModEntry, game_version: Seq<char>, loader: Seq<char>) -> Option<
    CompatibilityTarget,
> {
    match lookup(entry.compatibility@, game_version) {
        Some(loaders) => lookup(loaders@, loader),
        None => None,
    }
}

/// The downloads for the builds that the mods have for `game_version` and `loader`, in
/// the order of the mods; the first mod whose download cannot be made gives the error.
pub open spec fn downloads_of(
    repositories: Seq<(String, String)>,
    mods: Seq<ModEntry>,
    game_version: Seq<char>,
    loader: Seq<char>,
) -> Result<Seq<DownloadView>, Fault>
    decreases mods.len(),
{
    if mods.len() == 0 {
        Ok(Seq::empty())
    } else {
        match downloads_of(repositories, mods.drop_last(), game_version, loader) {
            Err(e) => Err(e),
            Ok(acc) => match target_of(mods.last(), game_version, loader) {
                None => Ok(acc),
                Some(target) => match download_spec(repositories, mods.last(), target) {
                    Err(e) => Err(e),
                    Ok(d) => Ok(acc.push(d)),
                },
            },
        }
    }
}

/// `i` is the first download whose file name is unsafe.
pub open spec fn is_first_unsafe(s: Seq<DownloadView>, i: int, platform: Platform) -> bool {
    &&& 0 <= i < s.len()
    &&& !is_safe_filename(s[i].filename, platform)
    &&& forall|j: int| 0 <= j < i ==> is_safe_filename(#[trigger] s[j].filename, platform)
}

/// `i` is the first download whose file name the next one repeats.
pub open spec fn is_first_duplicate(s: Seq<DownloadView>, i: int) -> bool {
    &&& 0 <= i && i + 1 < s.len()
    &&& s[i].filename == s[i + 1].filename
    &&& forall|j: int| 0 <= j < i ==> #[trigger] s[j].filename != s[j + 1].filename
}

/// The checks on the downloads of an installation, sorted by file name: each file name is
/// safe on `platform`, no file name occurs twice, and there is at least one download.
pub open spec fn check_downloads(sorted: Seq<DownloadView>, platform: Platform) -> Result<
    Seq<DownloadView>,
    Fault,
> {
    if exists|i: int| is_first_unsafe(sorted, i, platform) {
        Err(
            Fault::UnsafeFilename(
                sorted[choose|i: int| is_first_unsafe(sorted, i, platform)].filename,
            ),
        )
    } else if exists|i: int| is_first_duplicate(sorted, i) {
        Err(
            Fault::DuplicateFilename(
                sorted[choose|i: int| is_first_duplicate(sorted, i)].filename,
            ),
        )
    } else if sorted.len() == 0 {
        Err(Fault::NoCompatibleMods)
    } else {
        Ok(sorted)
    }
}

/// The files of an earlier installation to remove: its file names that are safe on
/// `platform` and that the new installation does not write, in order.
pub open spec fn stale_files(
    old_files: Seq<Seq<char>>,
    new_files: Seq<Seq<char>>,
    platform: Platform,
) -> Seq<Seq<char>>
    decreases old_files.len(),
{
    if old_files.len() == 0 {
        Seq::empty()
    } else {
        let rest = stale_files(old_files.drop_last(), new_files, platform);
        let f = old_files.last();
        if is_safe_filename(f, platform) && !new_files.contains(f) {
            rest.push(f)
        } else {
            rest
        }
    }
}

/// The mathematical value of an [`InstalledPack`].
pub struct InstalledView {
    pub branch: Seq<char>,
    pub game_version: Seq<char>,
    pub loader: Seq<char>,
    pub files: Seq<Seq<char>>,
}

impl View for InstalledPack {
    type V = InstalledView;

    open spec fn view(&self) -> InstalledView {
        InstalledView {
            branch: self.branch@,
            game_version: self.game_version@,
            loader: self.loader@,
            files: texts(self.files@),
        }
    }
}

/// The file names of the builds that the mods have for `game_version` and `loader`, in the
/// order of the mods, leaving out the mods whose download cannot be made.
pub open spec fn candidate_files(
    repositories: Seq<(String, String)>,
    mods: Seq<ModEntry>,
    game_version: Seq<char>,
    loader: Seq<char>,
) -> Seq<Seq<char>>
    decreases mods.len(),
{
    if mods.len() == 0 {
        Seq::empty()
    } else {
        let acc = candidate_files(repositories, mods.drop_last(), game_version, loader);
        match target_of(mods.last(), game_version, loader) {
            None => acc,
            Some(target) => match download_spec(repositories, mods.last(), target) {
                Ok(d) => acc.push(d.filename),
                Err(_) => acc,
            },
        }
    }
}

/// The best installation seen so far after looking at one more candidate: the candidate
/// wins when it has files, all of them are in the folder, and it has more files than the
/// best so far.
pub open spec fn better_candidate(
    best: Option<InstalledView>,
    candidate: InstalledView,
    existing: Seq<Seq<char>>,
) -> Option<InstalledView> {
    let files = candidate.files;
    if files.len() == 0 || !(forall|i: int| 0 <= i < files.len() ==> existing.contains(#[trigger] files[i])) {
        best
    } else if best is None || files.len() > best->0.files.len() {
        Some(candidate)
    } else {
        best
    }
}

/// The best installation after looking at each loader of `loaders` for a branch and a game
/// version.
pub open spec fn best_over_loaders(
    best: Option<InstalledView>,
    repositories: Seq<(String, String)>,
    branch: Seq<char>,
    mods: Seq<ModEntry>,
    game_version: Seq<char>,
    loaders: Seq<String>,
    existing: Seq<Seq<char>>,
) -> Option<InstalledView>
    decreases loaders.len(),
{
    if loaders.len() == 0 {
        best
    } else {
        let before = best_over_loaders(
            best,
            repositories,
            branch,
            mods,
            game_version,
            loaders.drop_last(),
            existing,
        );
        let loader = loaders.last()@;
        better_candidate(
            before,
            InstalledView {
                branch,
                game_version,
                loader,
                files: candidate_files(repositories, mods, game_version, loader),
            },
            existing,
        )
    }
}

impl PackConfig {
    /// The plan of an installation of `branch` for `game_version` and `loader` on
    /// `platform`: the downloads of the branch's mods that have a build for them, sorted by
    /// file name, once the checks on them pass.
    pub open spec fn install_plan_spec(
        self,
        branch: Seq<char>,
        game_version: Seq<char>,
        loader: Seq<char>,
        platform: Platform,
    ) -> Result<Seq<DownloadView>, Fault> {
        match resolution(self.packs_spec(), branch) {
            Err(e) => Err(e),
            Ok(mods) => match downloads_of(self.repositories_spec(), mods, game_version, loader) {
                Err(e) => Err(e),
                Ok(downloads) => check_downloads(
                    sort_spec(downloads, |a: DownloadView, b: DownloadView| filename_le(a, b)),
                    platform,
                ),
            },
        }
    }

    /// The best installation after looking at each game version of `versions` for a branch.
    pub open spec fn best_over_versions(
        self,
        best: Option<InstalledView>,
        branch: Seq<char>,
        mods: Seq<ModEntry>,
        versions: Seq<String>,
        existing: Seq<Seq<char>>,
    ) -> Option<InstalledView>
        decreases versions.len(),
    {
        if versions.len() == 0 {
            best
        } else {
            let before = self.best_over_versions(
                best,
                branch,
                mods,
                versions.drop_last(),
                existing,
            );
            let game_version = versions.last()@;
            best_over_loaders(
                before,
                self.repositories_spec(),
                branch,
                mods,
                game_version,
                self.loaders_for_spec(game_version),
                existing,
            )
        }
    }

    /// The best installation after looking at each offered pack of the first `count` packs.
    pub open spec fn best_over_packs(self, count: int, existing: Seq<Seq<char>>) -> Option<
        InstalledView,
    >
        decreases count,
    {
        if count <= 0 {
            None
        } else {
            let before = self.best_over_packs(count - 1, existing);
            let p = self.packs_spec()[count - 1];
            if crate::catalog::is_core(p.1) {
                match resolution(self.packs_spec(), p.0@) {
                    Ok(mods) => self.best_over_versions(
                        before,
                        p.0@,
                        mods,
                        self.game_versions_spec(),
                        existing,
                    ),
                    Err(_) => before,
                }
            } else {
                before
            }
        }
    }

    /// The installation that the files in a mods folder show: over the offered packs, their
    /// game versions and their loaders, the first candidate with the most files, all of
    /// them in the folder.
    pub open spec fn detect_from_files_spec(self, existing: Seq<Seq<char>>) -> Option<
        InstalledView,
    > {
        self.best_over_packs(self.packs_spec().len() as int, existing)
    }

    /// What is installed in a mods folder, from the state file the tool wrote there (if it
    /// could be read) and the names of the files in the folder (if they could be listed).
    pub open spec fn detect_install_spec(
        self,
        state: Option<InstalledView>,
        existing: Option<Seq<Seq<char>>>,
    ) -> Option<InstalledView> {
        let from_files = match existing {
            Some(names) => self.detect_from_files_spec(names),
            None => None,
        };
        match state {
            Some(s) => if s.files.len() > 0 {
                if s.branch.len() > 0 {
                    Some(s)
                } else {
                    match from_files {
                        Some(d) => Some(d),
                        None => Some(s),
                    }
                }
            } else {
                from_files
            },
            None => from_files,
        }
    }
}

proof fn lemma_downloads_error(
    repositories: Seq<(String, String)>,
    mods: Seq<ModEntry>,
    game_version: Seq<char>,
    loader: Seq<char>,
    k: int,
    e: Fault,
)
    requires
        0 <= k <= mods.len(),
        downloads_of(repositories, mods.take(k), game_version, loader) == Err::<
            Seq<DownloadView>,
            Fault,
        >(e),
    ensures
        downloads_of(repositories, mods, game_version, loader) == Err::<Seq<DownloadView>, Fault>(
            e,
        ),
    decreases mods.len(),
{
    if k == mods.len() {
        assert(mods.take(k) =~= mods);
    } else {
        assert(mods.drop_last().take(k) =~= mods.take(k));
        lemma_downloads_error(repositories, mods.drop_last(), game_version, loader, k, e);
    }
}

/// The build of a mod for `game_version` and `loader`.
fn target_for<'a>(entry: &'a ModEntry, game_version: &str, loader: &str) -> (r: Option<
    &'a CompatibilityTarget,
>)
    ensures
        r matches Some(t) ==> target_of(*entry, game_version@, loader@) == Some(*t),
        r is None ==> target_of(*entry, game_version@, loader@) is None,
{
    match find_key(&entry.compatibility, game_version) {
        Some(loaders) => find_key(loaders, loader),
        None => None,
    }
}

/// The file names of a list of downloads.
pub open spec fn filenames(s: Seq<DownloadView>) -> Seq<Seq<char>> {
    s.map_values(|d: DownloadView| d.filename)
}

impl PackConfig {
    /// Plans an installation of `branch` for `game_version` and `loader` into a mods folder
    /// on `platform`: resolves the branch, makes the download of each of its mods that has a
    /// build for them, sorts the downloads by file name and checks them.
    #[verifier::loop_isolation(false)]
    pub fn plan_install(
        &self,
        branch: &str,
        game_version: &str,
        loader: &str,
        platform: Platform,
    ) -> (r: Result<
        Vec<Download>,
        PackError,
    >)
        ensures
            match r {
                Ok(ds) => self.install_plan_spec(branch@, game_version@, loader@, platform) == Ok::<
                    Seq<DownloadView>,
                    Fault,
                >(dviews(ds@)),
                Err(e) => self.install_plan_spec(branch@, game_version@, loader@, platform) == Err::<
                    Seq<DownloadView>,
                    Fault,
                >(e@),
            },
    {
        let ghost repositories = self.repositories_spec();
        let mods = match self.resolve_mods(branch) {
            Ok(m) => m,
            Err(e) => {
                return Err(e);
            },
        };
        let ghost ms = derefs(mods@);
        let mut downloads: Vec<Download> = Vec::new();
        let mut k: usize = 0;
        assert(ms.take(0) =~= Seq::<ModEntry>::empty());
        assert(dviews(downloads@) =~= Seq::<DownloadView>::empty());
        while k < mods.len()
            invariant
                repositories == self.repositories_spec(),
                ms == derefs(mods@),
                k <= mods.len(),
                downloads_of(repositories, ms.take(k as int), game_version@, loader@) == Ok::<
                    Seq<DownloadView>,
                    Fault,
                >(dviews(downloads@)),
            decreases mods.len() - k,
        {
            assert(ms.take(k as int + 1).drop_last() =~= ms.take(k as int));
            assert(ms.take(k as int + 1).last() == *mods[k as int]);
            match target_for(mods[k], game_version, loader) {
                None => {},
                Some(target) => match self.download_for(mods[k], target) {
                    Ok(d) => {
                        let ghost before = downloads@;
                        let ghost dv = d@;
                        downloads.push(d);
                        assert(dviews(downloads@) =~= dviews(before).push(dv));
                    },
                    Err(e) => {
                        proof {
                            lemma_downloads_error(
                                repositories,
                                ms,
                                game_version@,
                                loader@,
                                k as int + 1,
                                e@,
                            );
                        }
                        return Err(e);
                    },
                },
            }
            k = k + 1;
        }
        assert(ms.take(k as int) =~= ms);
        let ghost unsorted = downloads@;
        let sorted = sort_by_order::<Download, FilenameOrder>(downloads);
        let ghost le = |a: DownloadView, b: DownloadView| filename_le(a, b);
        proof {
            lemma_sort_map(
                unsorted,
                |d: Download| d@,
                |a: Download, b: Download| FilenameOrder::le(a, b),
                le,
            );
            assert(dviews(unsorted) =~= unsorted.map_values(|d: Download| d@));
        }
        let ghost sv = dviews(sorted@);
        assert(sv == sort_spec(dviews(unsorted), le));
        let mut i: usize = 0;
        while i < sorted.len()
            invariant
                sv == dviews(sorted@),
                i <= sorted.len(),
                forall|j: int| 0 <= j < i ==> is_safe_filename(#[trigger] sv[j].filename, platform),
            decreases sorted.len() - i,
        {
            match validate_filename(sorted[i].filename.as_str(), platform) {
                Ok(()) => {},
                Err(e) => {
                    assert(is_first_unsafe(sv, i as int, platform));
                    let ghost c = choose|c: int| is_first_unsafe(sv, c, platform);
                    assert(c == i);
                    return Err(e);
                },
            }
            i = i + 1;
        }
        assert(!exists|c: int| is_first_unsafe(sv, c, platform));
        let mut i: usize = 0;
        while i < sorted.len() && i + 1 < sorted.len()
            invariant
                sv == dviews(sorted@),
                forall|j: int| 0 <= j < i ==> #[trigger] sv[j].filename != sv[j + 1].filename,
            decreases sorted.len() - i,
        {
            if same_text(sorted[i].filename.as_str(), sorted[i + 1].filename.as_str()) {
                assert(is_first_duplicate(sv, i as int));
                let ghost c = choose|c: int| is_first_duplicate(sv, c);
                assert(c == i);
                return Err(PackError::DuplicateFilename(sorted[i].filename.clone()));
            }
            i = i + 1;
        }
        assert(!exists|c: int| is_first_duplicate(sv, c));
        if sorted.len() == 0 {
            return Err(PackError::NoCompatibleMods);
        }
        Ok(sorted)
    }
}

/// The files of an earlier installation to remove before a new one: its file names that
/// are safe on `platform` and that the new installation does not write.
pub fn files_to_remove(old_files: &Vec<String>, downloads: &Vec<Download>, platform: Platform) -> (r:
    Vec<String>)
    ensures
        texts(r@) == stale_files(texts(old_files@), filenames(dviews(downloads@)), platform),
{
    let ghost news = filenames(dviews(downloads@));
    let mut names: Vec<String> = Vec::new();
    let mut k: usize = 0;
    while k < downloads.len()
        invariant
            news == filenames(dviews(downloads@)),
            k <= downloads.len(),
            texts(names@) == news.take(k as int),
        decreases downloads.len() - k,
    {
        assert(news[k as int] == downloads@[k as int].filename@);
        let ghost before = names@;
        names.push(downloads[k].filename.clone());
        assert(texts(names@) =~= texts(before).push(news[k as int]));
        assert(news.take(k as int + 1) =~= news.take(k as int).push(news[k as int]));
        k = k + 1;
    }
    assert(news.take(k as int) =~= news);
    let mut r: Vec<String> = Vec::new();
    let mut i: usize = 0;
    while i < old_files.len()
        invariant
            news == filenames(dviews(downloads@)),
            texts(names@) == news,
            i <= old_files.len(),
            texts(r@) == stale_files(texts(old_files@).take(i as int), news, platform),
        decreases old_files.len() - i,
    {
        assert(texts(old_files@).take(i as int + 1).drop_last() =~= texts(old_files@).take(
            i as int,
        ));
        let f = old_files[i].as_str();
        let safe = validate_filename(f, platform);
        if safe.is_ok() && !contains_text(&names, f) {
            let ghost before = r@;
            r.push(old_files[i].clone());
            assert(texts(r@) =~= texts(before).push(old_files@[i as int]@));
        }
        i = i + 1;
    }
    assert(texts(old_files@).take(i as int) =~= texts(old_files@));
    r
}

impl InstalledPack {
    /// The state an installation records: the branch, game version and loader it installed,
    /// and the file names it wrote.
    pub fn after_install(branch: &str, game_version: &str, loader: &str, downloads: &Vec<
        Download,
    >) -> (r: InstalledPack)
        ensures
            r@ == (InstalledView {
                branch: branch@,
                game_version: game_version@,
                loader: loader@,
                files: filenames(dviews(downloads@)),
            }),
    {
        let mut files: Vec<String> = Vec::new();
        let mut k: usize = 0;
        while k < downloads.len()
            invariant
                k <= downloads.len(),
                texts(files@) == filenames(dviews(downloads@)).take(k as int),
            decreases downloads.len() - k,
        {
            let ghost news = filenames(dviews(downloads@));
            assert(news[k as int] == downloads@[k as int].filename@);
            let ghost before = files@;
            files.push(downloads[k].filename.clone());
            assert(texts(files@) =~= texts(before).push(news[k as int]));
            assert(news.take(k as int + 1) =~= news.take(k as int).push(news[k as int]));
            k = k + 1;
        }
        assert(filenames(dviews(downloads@)).take(k as int) =~= filenames(dviews(downloads@)));
        InstalledPack {
            branch: String::from_str(branch),
            game_version: String::from_str(game_version),
            loader: String::from_str(loader),
            files,
        }
    }
}

/// The view of an optional installation.
pub open spec fn opt_view(o: Option<InstalledPack>) -> Option<InstalledView> {
    match o {
        Some(p) => Some(p@),
        None => None,
    }
}

impl PackConfig {
    /// The file names of the builds that the mods have for `game_version` and `loader`,
    /// leaving out the mods whose download cannot be made.
    fn candidate_files_exec(&self, mods: &Vec<&ModEntry>, game_version: &str, loader: &str) -> (r:
        Vec<String>)
        ensures
            texts(r@) == candidate_files(
                self.repositories_spec(),
                derefs(mods@),
                game_version@,
                loader@,
            ),
    {
        let ghost ms = derefs(mods@);
        let mut files: Vec<String> = Vec::new();
        let mut k: usize = 0;
        assert(ms.take(0) =~= Seq::<ModEntry>::empty());
        assert(texts(files@) =~= Seq::<Seq<char>>::empty());
        while k < mods.len()
            invariant
                ms == derefs(mods@),
                k <= mods.len(),
                texts(files@) == candidate_files(
                    self.repositories_spec(),
                    ms.take(k as int),
                    game_version@,
                    loader@,
                ),
            decreases mods.len() - k,
        {
            assert(ms.take(k as int + 1).drop_last() =~= ms.take(k as int));
            assert(ms.take(k as int + 1).last() == *mods[k as int]);
            match target_for(mods[k], game_version, loader) {
                None => {},
                Some(target) => match self.download_for(mods[k], target) {
                    Ok(d) => {
                        let ghost before = files@;
                        let ghost name = d.filename@;
                        files.push(d.filename);
                        assert(texts(files@) =~= texts(before).push(name));
                    },
                    Err(_) => {},
                },
            }
            k = k + 1;
        }
        assert(ms.take(k as int) =~= ms);
        files
    }

    /// The installation that the files in a mods folder show: over the offered packs, their
    /// game versions and their loaders, the first candidate with the most files, all of
    /// them in the folder.
    pub fn detect_from_files(&self, existing: &Vec<String>) -> (r: Option<InstalledPack>)
        ensures
            opt_view(r) == self.detect_from_files_spec(texts(existing@)),
    {
        let ghost ex = texts(existing@);
        let versions = self.game_versions();
        let packs = self.packs();
        let mut best: Option<InstalledPack> = None;
        let mut i: usize = 0;
        while i < packs.len()
            invariant
                ex == texts(existing@),
                versions@ == self.game_versions_spec(),
                packs@ == self.packs_spec(),
                i <= packs.len(),
                opt_view(best) == self.best_over_packs(i as int, ex),
            decreases packs.len() - i,
        {
            if crate::catalog::is_core_exec(&packs[i].1) {
                match self.resolve_mods(packs[i].0.as_str()) {
                    Ok(mods) => {
                        let ghost ms = derefs(mods@);
                        let ghost branch = packs@[i as int].0@;
                        let ghost start = opt_view(best);
                        let mut v: usize = 0;
                        assert(versions@.take(0) =~= Seq::<String>::empty());
                        while v < versions.len()
                            invariant
                                ex == texts(existing@),
                                ms == derefs(mods@),
                                branch == packs@[i as int].0@,
                                i < packs.len(),
                                v <= versions.len(),
                                opt_view(best) == self.best_over_versions(
                                    start,
                                    branch,
                                    ms,
                                    versions@.take(v as int),
                                    ex,
                                ),
                            decreases versions.len() - v,
                        {
                            assert(versions@.take(v as int + 1).drop_last() =~= versions@.take(
                                v as int,
                            ));
                            let game_version = versions[v].as_str();
                            let loaders = self.loaders_for(game_version);
                            let ghost mid = opt_view(best);
                            let mut l: usize = 0;
                            assert(loaders@.take(0) =~= Seq::<String>::empty());
                            while l < loaders.len()
                                invariant
                                    ex == texts(existing@),
                                    ms == derefs(mods@),
                                    branch == packs@[i as int].0@,
                                    i < packs.len(),
                                    v < versions.len(),
                                    game_version@ == versions@[v as int]@,
                                    l <= loaders.len(),
                                    opt_view(best) == best_over_loaders(
                                        mid,
                                        self.repositories_spec(),
                                        branch,
                                        ms,
                                        game_version@,
                                        loaders@.take(l as int),
                                        ex,
                                    ),
                                decreases loaders.len() - l,
                            {
                                assert(loaders@.take(l as int + 1).drop_last() =~= loaders@.take(
                                    l as int,
                                ));
                                let loader = loaders[l].as_str();
                                let files = self.candidate_files_exec(&mods, game_version, loader);
                                let mut all_there = true;
                                let mut f: usize = 0;
                                while f < files.len() && all_there
                                    invariant
                                        f <= files.len(),
                                        ex == texts(existing@),
                                        all_there ==> forall|j: int|
                                            0 <= j < f ==> ex.contains(#[trigger] texts(files@)[j]),
                                        !all_there ==> !(forall|j: int|
                                            0 <= j < files.len() ==> ex.contains(
                                                #[trigger] texts(files@)[j],
                                            )),
                                    decreases files.len() - f,
                                {
                                    if !contains_text(existing, files[f].as_str()) {
                                        assert(!ex.contains(texts(files@)[f as int]));
                                        all_there = false;
                                    }
                                    f = f + 1;
                                }
                                let wins = files.len() > 0 && all_there && match &best {
                                    None => true,
                                    Some(b) => files.len() > b.files.len(),
                                };
                                if wins {
                                    best = Some(
                                        InstalledPack {
                                            branch: packs[i].0.clone(),
                                            game_version: versions[v].clone(),
                                            loader: loaders[l].clone(),
                                            files,
                                        },
                                    );
                                }
                                l = l + 1;
                            }
                            assert(loaders@.take(l as int) =~= loaders@);
                            v = v + 1;
                        }
                        assert(versions@.take(v as int) =~= versions@);
                    },
                    Err(_) => {},
                }
            }
            i = i + 1;
        }
        best
    }

    /// What is installed in a mods folder, from the state file the tool wrote there (if it
    /// could be read) and the names of the files in the folder (if they could be listed).
    pub fn detect_install(&self, state: Option<InstalledPack>, existing: Option<&Vec<String>>) -> (r:
        Option<InstalledPack>)
        ensures
            opt_view(r) == self.detect_install_spec(
                opt_view(state),
                match existing {
                    Some(names) => Some(texts(names@)),
                    None => None,
                },
            ),
    {
        match state {
            Some(s) => {
                if s.files.len() > 0 {
                    if !s.branch.as_str().is_empty() {
                        return Some(s);
                    }
                    let detected = match existing {
                        Some(names) => self.detect_from_files(names),
                        None => None,
                    };
                    return match detected {
                        Some(d) => Some(d),
                        None => Some(s),
                    };
                }
            },
            None => {},
        }
        match existing {
            Some(names) => self.detect_from_files(names),
            None => None,
        }
    }
}

// ---------------------------------------------------------------------------------------------
// Laws of installation.
// ---------------------------------------------------------------------------------------------

proof fn lemma_filename_order()
    ensures
        is_total(|a: DownloadView, b: DownloadView| filename_le(a, b)),
        is_transitive(|a: DownloadView, b: DownloadView| filename_le(a, b)),
{
    let le = |a: DownloadView, b: DownloadView| filename_le(a, b);
    assert forall|a: DownloadView, b: DownloadView| #[trigger] le(a, b) || le(b, a) by {
        lemma_text_lt_asymmetric(a.filename, b.filename);
    }
    assert forall|a: DownloadView, b: DownloadView, c: DownloadView|
        #[trigger] le(a, b) && #[trigger] le(b, c) implies le(a, c) by {
        if text_lt(c.filename, a.filename) {
            lemma_text_lt_total(a.filename, b.filename);
            if a.filename != b.filename {
                lemma_text_lt_transitive(c.filename, a.filename, b.filename);
            }
        }
    }
}

proof fn lemma_first_unsafe_exists(s: Seq<DownloadView>, i: int, platform: Platform)
    requires
        0 <= i < s.len(),
        !is_safe_filename(s[i].filename, platform),
    ensures
        exists|k: int| is_first_unsafe(s, k, platform),
    decreases i,
{
    if exists|j: int| 0 <= j < i && !is_safe_filename(#[trigger] s[j].filename, platform) {
        let j = choose|j: int| 0 <= j < i && !is_safe_filename(#[trigger] s[j].filename, platform);
        lemma_first_unsafe_exists(s, j, platform);
    } else {
        assert(is_first_unsafe(s, i, platform));
    }
}

proof fn lemma_first_duplicate_exists(s: Seq<DownloadView>, i: int)
    requires
        0 <= i && i + 1 < s.len(),
        s[i].filename == s[i + 1].filename,
    ensures
        exists|k: int| is_first_duplicate(s, k),
    decreases i,
{
    if exists|j: int| 0 <= j < i && #[trigger] s[j].filename == s[j + 1].filename {
        let j = choose|j: int| 0 <= j < i && #[trigger] s[j].filename == s[j + 1].filename;
        lemma_first_duplicate_exists(s, j);
    } else {
        assert(is_first_duplicate(s, i));
    }
}

/// When an installation can be planned, it downloads at least one file, each file name is
/// safe on the platform, the downloads are sorted by file name, and no file name occurs twice.
pub proof fn lemma_install_plan(
    config: PackConfig,
    branch: Seq<char>,
    game_version: Seq<char>,
    loader: Seq<char>,
    platform: Platform,
)
    requires
        config.install_plan_spec(branch, game_version, loader, platform) is Ok,
    ensures
        ({
            let ds = config.install_plan_spec(branch, game_version, loader, platform)->Ok_0;
            &&& ds.len() > 0
            &&& forall|i: int| 0 <= i < ds.len() ==> is_safe_filename(#[trigger] ds[i].filename, platform)
            &&& is_sorted(ds, |a: DownloadView, b: DownloadView| filename_le(a, b))
            &&& filenames(ds).no_duplicates()
        }),
{
    let mods = resolution(config.packs_spec(), branch)->Ok_0;
    let all = downloads_of(config.repositories_spec(), mods, game_version, loader)->Ok_0;
    let le = |a: DownloadView, b: DownloadView| filename_le(a, b);
    let ds = sort_spec(all, le);
    assert(config.install_plan_spec(branch, game_version, loader, platform) == check_downloads(ds, platform));
    lemma_filename_order();
    lemma_sort_sorted(all, le);
    assert forall|i: int| 0 <= i < ds.len() implies is_safe_filename(#[trigger] ds[i].filename, platform) by {
        if !is_safe_filename(ds[i].filename, platform) {
            lemma_first_unsafe_exists(ds, i, platform);
        }
    }
    assert forall|a: int, b: int|
        0 <= a < filenames(ds).len() && 0 <= b < filenames(ds).len() && a != b implies filenames(ds)[a] != filenames(ds)[b] by {
        let (i, j) = if a < b { (a, b) } else { (b, a) };
        if ds[i].filename == ds[j].filename {
            assert(le(ds[i], ds[i + 1]));
            if i + 1 < j {
                assert(le(ds[i + 1], ds[j]));
            }
            lemma_text_lt_total(ds[i].filename, ds[i + 1].filename);
            lemma_first_duplicate_exists(ds, i);
        }
    }
}

/// Each file an installation removes is a file name safe on the platform of the earlier installation that
/// the new one does not write.
pub proof fn lemma_stale_files(old_files: Seq<Seq<char>>, new_files: Seq<Seq<char>>, platform: Platform)
    ensures
        forall|i: int| 0 <= i < stale_files(old_files, new_files, platform).len() ==> {
            let f = #[trigger] stale_files(old_files, new_files, platform)[i];
            &&& is_safe_filename(f, platform)
            &&& !new_files.contains(f)
            &&& old_files.contains(f)
        },
    decreases old_files.len(),
{
    if old_files.len() > 0 {
        lemma_stale_files(old_files.drop_last(), new_files, platform);
        let rest = stale_files(old_files.drop_last(), new_files, platform);
        assert forall|i: int| 0 <= i < stale_files(old_files, new_files, platform).len() implies ({
            let f = #[trigger] stale_files(old_files, new_files, platform)[i];
            &&& is_safe_filename(f, platform)
            &&& !new_files.contains(f)
            &&& old_files.contains(f)
        }) by {
            let f = stale_files(old_files, new_files, platform)[i];
            if i < rest.len() {
                assert(rest[i] == f);
                let k = choose|k: int| 0 <= k < old_files.drop_last().len() && old_files.drop_last()[k] == f;
                assert(old_files[k] == f);
            } else {
                assert(old_files[old_files.len() - 1] == f);
            }
        }
    }
}

/// An installation removes every file of the earlier installation whose name is safe on the
/// platform and that the new installation does not write.
pub proof fn lemma_stale_files_complete(
    old_files: Seq<Seq<char>>,
    new_files: Seq<Seq<char>>,
    platform: Platform,
)
    ensures
        forall|i: int|
            0 <= i < old_files.len() && is_safe_filename(old_files[i], platform)
                && !new_files.contains(old_files[i]) ==> stale_files(
                old_files,
                new_files,
                platform,
            ).contains(#[trigger] old_files[i]),
    decreases old_files.len(),
{
    if old_files.len() > 0 {
        let shorter = old_files.drop_last();
        lemma_stale_files_complete(shorter, new_files, platform);
        let rest = stale_files(shorter, new_files, platform);
        let all = stale_files(old_files, new_files, platform);
        assert forall|i: int|
            0 <= i < old_files.len() && is_safe_filename(old_files[i], platform)
                && !new_files.contains(old_files[i]) implies all.contains(#[trigger] old_files[i]) by {
            if i < shorter.len() {
                assert(shorter[i] == old_files[i]);
                assert(rest.contains(shorter[i]));
                let k = choose|k: int| 0 <= k < rest.len() && rest[k] == shorter[i];
                if all != rest {
                    assert(all == rest.push(old_files.last()));
                    assert(all[k] == rest[k]);
                }
            } else {
                assert(all == rest.push(old_files.last()));
                assert(all[rest.len() as int] == old_files[i]);
            }
        }
    }
}

/// Without a state file, what is installed is what the folder's files show: detection from
/// the state and the file names agrees with detection from the file names alone, and finds
/// nothing when the names could not be listed. A state file that names files and a branch is
/// taken as it is; one that names no files counts as none.
pub proof fn lemma_detect_install(
    config: PackConfig,
    state: Option<InstalledView>,
    existing: Option<Seq<Seq<char>>>,
)
    ensures
        state is None ==> config.detect_install_spec(state, existing) == match existing {
            Some(names) => config.detect_from_files_spec(names),
            None => None::<InstalledView>,
        },
        (state matches Some(s) && s.files.len() == 0) ==> config.detect_install_spec(state, existing)
            == config.detect_install_spec(None, existing),
        (state matches Some(s) && s.files.len() > 0 && s.branch.len() > 0) ==> config.detect_install_spec(
            state,
            existing,
        ) == state,
        (state matches Some(s) && s.files.len() > 0) ==> config.detect_install_spec(state, existing)
            is Some,
{
}

/// Mod `m` has a build for exactly `game_version` and then exactly `loader`, and `d` is what
/// to download for it.
pub open spec fn downloads_build(
    repositories: Seq<(String, String)>,
    m: ModEntry,
    game_version: Seq<char>,
    loader: Seq<char>,
    d: DownloadView,
) -> bool {
    lookup(m.compatibility@, game_version) matches Some(loaders) && lookup(loaders@, loader) matches Some(
        t,
    ) && download_spec(repositories, m, t) == Ok::<DownloadView, Fault>(d)
}

proof fn lemma_downloads_of_builds(
    repositories: Seq<(String, String)>,
    mods: Seq<ModEntry>,
    game_version: Seq<char>,
    loader: Seq<char>,
)
    requires
        downloads_of(repositories, mods, game_version, loader) is Ok,
    ensures
        forall|i: int|
            0 <= i < downloads_of(repositories, mods, game_version, loader)->Ok_0.len() ==> exists|k: int|
                0 <= k < mods.len() && downloads_build(
                    repositories,
                    #[trigger] mods[k],
                    game_version,
                    loader,
                    #[trigger] downloads_of(repositories, mods, game_version, loader)->Ok_0[i],
                ),
        forall|k: int, t: CompatibilityTarget|
            0 <= k < mods.len() && (lookup(mods[k].compatibility@, game_version) matches Some(
                loaders,
            ) && lookup(loaders@, loader) == Some(t)) ==> #[trigger] download_spec(repositories, mods[k], t) is Ok
                && downloads_of(repositories, mods, game_version, loader)->Ok_0.contains(
                download_spec(repositories, mods[k], t)->Ok_0,
            ),
    decreases mods.len(),
{
    if mods.len() > 0 {
        let shorter = mods.drop_last();
        lemma_downloads_of_builds(repositories, shorter, game_version, loader);
        let acc = downloads_of(repositories, shorter, game_version, loader)->Ok_0;
        let all = downloads_of(repositories, mods, game_version, loader)->Ok_0;
        let m = mods.last();
        let last = mods.len() - 1;
        assert(m == mods[last]);
        assert forall|i: int| 0 <= i < all.len() implies exists|k: int|
            0 <= k < mods.len() && downloads_build(
                repositories,
                #[trigger] mods[k],
                game_version,
                loader,
                #[trigger] all[i],
            ) by {
            if i < acc.len() {
                assert(all[i] == acc[i]);
                let k = choose|k: int|
                    0 <= k < shorter.len() && downloads_build(
                        repositories,
                        #[trigger] shorter[k],
                        game_version,
                        loader,
                        acc[i],
                    );
                assert(mods[k] == shorter[k]);
            } else {
                assert(downloads_build(repositories, mods[last], game_version, loader, all[i]));
            }
        }
        assert forall|k: int, t: CompatibilityTarget|
            0 <= k < mods.len() && (lookup(mods[k].compatibility@, game_version) matches Some(
                loaders,
            ) && lookup(loaders@, loader) == Some(t)) implies #[trigger] download_spec(repositories, mods[k], t) is Ok
                && all.contains(download_spec(repositories, mods[k], t)->Ok_0) by {
            if k < shorter.len() {
                assert(mods[k] == shorter[k]);
                let d = download_spec(repositories, mods[k], t)->Ok_0;
                assert(acc.contains(d));
                let j = choose|j: int| 0 <= j < acc.len() && acc[j] == d;
                assert(all[j] == acc[j]);
            } else {
                assert(all[acc.len() as int] == download_spec(repositories, mods[k], t)->Ok_0);
            }
        }
    }
}

/// `f` is the file name of the download of a build that one of the mods has for exactly
/// `game_version` and then exactly `loader`.
pub open spec fn file_of_build(
    repositories: Seq<(String, String)>,
    mods: Seq<ModEntry>,
    game_version: Seq<char>,
    loader: Seq<char>,
    f: Seq<char>,
) -> bool {
    exists|k: int, d: DownloadView|
        0 <= k < mods.len() && #[trigger] downloads_build(repositories, mods[k], game_version, loader, d)
            && d.filename == f
}

/// The files a candidate installation writes are exactly the file names of the downloads
/// of the mods' builds for exactly the game version and then exactly the loader: each is the
/// file name of such a build's download, and each such build whose download can be made
/// gives its file name.
pub proof fn lemma_candidate_files(
    repositories: Seq<(String, String)>,
    mods: Seq<ModEntry>,
    game_version: Seq<char>,
    loader: Seq<char>,
)
    ensures
        forall|i: int|
            0 <= i < candidate_files(repositories, mods, game_version, loader).len()
                ==> file_of_build(
                repositories,
                mods,
                game_version,
                loader,
                #[trigger] candidate_files(repositories, mods, game_version, loader)[i],
            ),
        forall|k: int, d: DownloadView|
            0 <= k < mods.len() && #[trigger] downloads_build(repositories, mods[k], game_version, loader, d)
                ==> candidate_files(repositories, mods, game_version, loader).contains(d.filename),
    decreases mods.len(),
{
    if mods.len() > 0 {
        let shorter = mods.drop_last();
        lemma_candidate_files(repositories, shorter, game_version, loader);
        let acc = candidate_files(repositories, shorter, game_version, loader);
        let all = candidate_files(repositories, mods, game_version, loader);
        let last = mods.len() - 1;
        assert(mods[last] == mods.last());
        assert forall|i: int| 0 <= i < all.len() implies file_of_build(
            repositories,
            mods,
            game_version,
            loader,
            #[trigger] all[i],
        ) by {
            if i < acc.len() {
                assert(all[i] == acc[i]);
                assert(file_of_build(repositories, shorter, game_version, loader, acc[i]));
                let (k, d) = choose|k: int, d: DownloadView|
                    0 <= k < shorter.len() && #[trigger] downloads_build(
                        repositories,
                        shorter[k],
                        game_version,
                        loader,
                        d,
                    ) && d.filename == acc[i];
                assert(mods[k] == shorter[k]);
                assert(downloads_build(repositories, mods[k], game_version, loader, d));
            } else {
                assert(all != acc);
                let t = target_of(mods[last], game_version, loader)->0;
                let d = download_spec(repositories, mods[last], t)->Ok_0;
                assert(all == acc.push(d.filename));
                assert(all[i] == d.filename);
                assert(downloads_build(repositories, mods[last], game_version, loader, d));
                assert(file_of_build(repositories, mods, game_version, loader, all[i]));
            }
        }
        assert forall|k: int, d: DownloadView|
            0 <= k < mods.len() && #[trigger] downloads_build(repositories, mods[k], game_version, loader, d)
                implies all.contains(d.filename) by {
            if k < last {
                assert(mods[k] == shorter[k]);
                assert(downloads_build(repositories, shorter[k], game_version, loader, d));
                let j = choose|j: int| 0 <= j < acc.len() && acc[j] == d.filename;
                assert(all[j] == acc[j]);
            } else {
                assert(all[acc.len() as int] == d.filename);
            }
        }
    }
}

/// A planned installation downloads exactly the builds of the branch's resolved mods for
/// exactly the requested game version and then exactly the requested loader: each download
/// is that of such a build of one of the mods, and each such build is downloaded. A mod
/// without a build for that game version and loader adds nothing.
pub proof fn lemma_install_plan_builds(
    config: PackConfig,
    branch: Seq<char>,
    game_version: Seq<char>,
    loader: Seq<char>,
    platform: Platform,
)
    requires
        config.install_plan_spec(branch, game_version, loader, platform) is Ok,
    ensures
        resolution(config.packs_spec(), branch) is Ok,
        ({
            let mods = resolution(config.packs_spec(), branch)->Ok_0;
            let ds = config.install_plan_spec(branch, game_version, loader, platform)->Ok_0;
            let repositories = config.repositories_spec();
            &&& forall|i: int|
                0 <= i < ds.len() ==> exists|k: int|
                    0 <= k < mods.len() && downloads_build(
                        repositories,
                        #[trigger] mods[k],
                        game_version,
                        loader,
                        #[trigger] ds[i],
                    )
            &&& forall|k: int, t: CompatibilityTarget|
                0 <= k < mods.len() && (lookup(mods[k].compatibility@, game_version) matches Some(
                    loaders,
                ) && lookup(loaders@, loader) == Some(t)) ==> #[trigger] download_spec(repositories, mods[k], t) is Ok
                    && ds.contains(download_spec(repositories, mods[k], t)->Ok_0)
        }),
{
    let mods = resolution(config.packs_spec(), branch)->Ok_0;
    let repositories = config.repositories_spec();
    let all = downloads_of(repositories, mods, game_version, loader)->Ok_0;
    let le = |a: DownloadView, b: DownloadView| filename_le(a, b);
    let ds = sort_spec(all, le);
    assert(config.install_plan_spec(branch, game_version, loader, platform) == check_downloads(ds, platform));
    lemma_downloads_of_builds(repositories, mods, game_version, loader);
    assert forall|i: int| 0 <= i < ds.len() implies exists|k: int|
        0 <= k < mods.len() && downloads_build(repositories, #[trigger] mods[k], game_version, loader, #[trigger] ds[i]) by {
        crate::sorting::lemma_sort_same_items(all, le, ds[i]);
        assert(ds.contains(ds[i]));
        let j = choose|j: int| 0 <= j < all.len() && all[j] == ds[i];
    }
    assert forall|k: int, t: CompatibilityTarget|
        0 <= k < mods.len() && (lookup(mods[k].compatibility@, game_version) matches Some(
            loaders,
        ) && lookup(loaders@, loader) == Some(t)) implies #[trigger] download_spec(repositories, mods[k], t) is Ok
            && ds.contains(download_spec(repositories, mods[k], t)->Ok_0) by {
        crate::sorting::lemma_sort_same_items(all, le, download_spec(repositories, mods[k], t)->Ok_0);
    }
}

/// A candidate that can win: it has files and all of them are in the folder.
pub open spec fn present(p: Option<InstalledView>, existing: Seq<Seq<char>>) -> bool {
    p matches Some(v) ==> v.files.len() > 0 && forall|i: int|
        0 <= i < v.files.len() ==> existing.contains(#[trigger] v.files[i])
}

proof fn lemma_best_over_loaders(
    best: Option<InstalledView>,
    repositories: Seq<(String, String)>,
    branch: Seq<char>,
    mods: Seq<ModEntry>,
    game_version: Seq<char>,
    loaders: Seq<String>,
    existing: Seq<Seq<char>>,
)
    requires
        present(best, existing),
    ensures
        present(
            best_over_loaders(best, repositories, branch, mods, game_version, loaders, existing),
            existing,
        ),
    decreases loaders.len(),
{
    if loaders.len() > 0 {
        lemma_best_over_loaders(
            best,
            repositories,
            branch,
            mods,
            game_version,
            loaders.drop_last(),
            existing,
        );
    }
}

impl PackConfig {
    proof fn lemma_best_over_versions(
        self,
        best: Option<InstalledView>,
        branch: Seq<char>,
        mods: Seq<ModEntry>,
        versions: Seq<String>,
        existing: Seq<Seq<char>>,
    )
        requires
            present(best, existing),
        ensures
            present(self.best_over_versions(best, branch, mods, versions, existing), existing),
        decreases versions.len(),
    {
        if versions.len() > 0 {
            self.lemma_best_over_versions(best, branch, mods, versions.drop_last(), existing);
            let before = self.best_over_versions(best, branch, mods, versions.drop_last(), existing);
            let game_version = versions.last()@;
            lemma_best_over_loaders(
                before,
                self.repositories_spec(),
                branch,
                mods,
                game_version,
                self.loaders_for_spec(game_version),
                existing,
            );
        }
    }

    proof fn lemma_best_over_packs(self, count: int, existing: Seq<Seq<char>>)
        ensures
            present(self.best_over_packs(count, existing), existing),
        decreases count,
    {
        if count > 0 {
            self.lemma_best_over_packs(count - 1, existing);
            let before = self.best_over_packs(count - 1, existing);
            let p = self.packs_spec()[count - 1];
            if let Ok(mods) = resolution(self.packs_spec(), p.0@) {
                self.lemma_best_over_versions(before, p.0@, mods, self.game_versions_spec(), existing);
            }
        }
    }

    /// An installation detected from the files of a folder names at least one file, and
    /// each file it names is in the folder.
    pub proof fn lemma_detect_from_files(self, existing: Seq<Seq<char>>)
        ensures
            present(self.detect_from_files_spec(existing), existing),
    {
        self.lemma_best_over_packs(self.packs_spec().len() as int, existing);
    }
}

/// The files of a candidate are shown by a folder: there is at least one, and the folder
/// holds each of them.
pub open spec fn shown(files: Seq<Seq<char>>, existing: Seq<Seq<char>>) -> bool {
    files.len() > 0 && forall|i: int| 0 <= i < files.len() ==> existing.contains(#[trigger] files[i])
}

/// An installation was found, with at least `n` files.
pub open spec fn has_at_least(found: Option<InstalledView>, n: nat) -> bool {
    found matches Some(d) && d.files.len() >= n
}

proof fn lemma_better_candidate(
    best: Option<InstalledView>,
    candidate: InstalledView,
    existing: Seq<Seq<char>>,
)
    ensures
        forall|n: nat| #[trigger] has_at_least(best, n) ==> has_at_least(
            better_candidate(best, candidate, existing),
            n,
        ),
        shown(candidate.files, existing) ==> has_at_least(
            better_candidate(best, candidate, existing),
            candidate.files.len(),
        ),
        better_candidate(best, candidate, existing) == best || (better_candidate(
            best,
            candidate,
            existing,
        ) == Some(candidate) && shown(candidate.files, existing)),
{
}

proof fn lemma_loaders_most(
    best: Option<InstalledView>,
    repositories: Seq<(String, String)>,
    branch: Seq<char>,
    mods: Seq<ModEntry>,
    game_version: Seq<char>,
    loaders: Seq<String>,
    existing: Seq<Seq<char>>,
)
    ensures
        ({
            let r = best_over_loaders(best, repositories, branch, mods, game_version, loaders, existing);
            &&& forall|n: nat| #[trigger] has_at_least(best, n) ==> has_at_least(r, n)
            &&& forall|j: int|
                0 <= j < loaders.len() && shown(
                    #[trigger] candidate_files(repositories, mods, game_version, loaders[j]@),
                    existing,
                ) ==> has_at_least(
                    r,
                    candidate_files(repositories, mods, game_version, loaders[j]@).len(),
                )
            &&& r == best || exists|j: int|
                0 <= j < loaders.len() && r == Some(
                    InstalledView {
                        branch,
                        game_version,
                        loader: loaders[j]@,
                        files: #[trigger] candidate_files(repositories, mods, game_version, loaders[j]@),
                    },
                ) && shown(candidate_files(repositories, mods, game_version, loaders[j]@), existing)
        }),
    decreases loaders.len(),
{
    if loaders.len() > 0 {
        let shorter = loaders.drop_last();
        lemma_loaders_most(best, repositories, branch, mods, game_version, shorter, existing);
        let before = best_over_loaders(best, repositories, branch, mods, game_version, shorter, existing);
        let loader = loaders.last()@;
        let candidate = InstalledView {
            branch,
            game_version,
            loader,
            files: candidate_files(repositories, mods, game_version, loader),
        };
        lemma_better_candidate(before, candidate, existing);
        let r = best_over_loaders(best, repositories, branch, mods, game_version, loaders, existing);
        assert(r == better_candidate(before, candidate, existing));
        let last = loaders.len() - 1;
        assert(loaders[last]@ == loader);
        assert forall|n: nat| #[trigger] has_at_least(best, n) implies has_at_least(r, n) by {
            assert(has_at_least(before, n));
        }
        assert forall|j: int|
            0 <= j < loaders.len() && shown(
                #[trigger] candidate_files(repositories, mods, game_version, loaders[j]@),
                existing,
            ) implies has_at_least(
            r,
            candidate_files(repositories, mods, game_version, loaders[j]@).len(),
        ) by {
            if j < last {
                assert(shorter[j] == loaders[j]);
                assert(has_at_least(
                    before,
                    candidate_files(repositories, mods, game_version, shorter[j]@).len(),
                ));
            }
        }
        if r != best {
            if r == before {
                let j = choose|j: int|
                    0 <= j < shorter.len() && before == Some(
                        InstalledView {
                            branch,
                            game_version,
                            loader: shorter[j]@,
                            files: #[trigger] candidate_files(repositories, mods, game_version, shorter[j]@),
                        },
                    ) && shown(candidate_files(repositories, mods, game_version, shorter[j]@), existing);
                assert(shorter[j] == loaders[j]);
            } else {
                assert(candidate_files(repositories, mods, game_version, loaders[last]@) == candidate.files);
            }
        }
    }
}

proof fn lemma_loaders_first(
    best: Option<InstalledView>,
    repositories: Seq<(String, String)>,
    branch: Seq<char>,
    mods: Seq<ModEntry>,
    game_version: Seq<char>,
    loaders: Seq<String>,
    existing: Seq<Seq<char>>,
)
    ensures
        ({
            let r = best_over_loaders(best, repositories, branch, mods, game_version, loaders, existing);
            r == best || exists|j: int|
                0 <= j < loaders.len() && r == Some(
                    InstalledView {
                        branch,
                        game_version,
                        loader: loaders[j]@,
                        files: #[trigger] candidate_files(repositories, mods, game_version, loaders[j]@),
                    },
                ) && shown(candidate_files(repositories, mods, game_version, loaders[j]@), existing)
                    && (best matches Some(b) ==> b.files.len() < candidate_files(
                    repositories,
                    mods,
                    game_version,
                    loaders[j]@,
                ).len()) && forall|j2: int|
                    0 <= j2 < j && shown(
                        #[trigger] candidate_files(repositories, mods, game_version, loaders[j2]@),
                        existing,
                    ) ==> candidate_files(repositories, mods, game_version, loaders[j2]@).len()
                        < candidate_files(repositories, mods, game_version, loaders[j]@).len()
        }),
    decreases loaders.len(),
{
    if loaders.len() > 0 {
        let shorter = loaders.drop_last();
        lemma_loaders_first(best, repositories, branch, mods, game_version, shorter, existing);
        lemma_loaders_most(best, repositories, branch, mods, game_version, shorter, existing);
        let before = best_over_loaders(best, repositories, branch, mods, game_version, shorter, existing);
        let last = loaders.len() - 1;
        let loader = loaders[last]@;
        let files = candidate_files(repositories, mods, game_version, loader);
        let candidate = InstalledView { branch, game_version, loader, files };
        lemma_better_candidate(before, candidate, existing);
        let r = best_over_loaders(best, repositories, branch, mods, game_version, loaders, existing);
        assert(r == better_candidate(before, candidate, existing));
        if r == before {
            if r != best {
                let j = choose|j: int|
                    0 <= j < shorter.len() && before == Some(
                        InstalledView {
                            branch,
                            game_version,
                            loader: shorter[j]@,
                            files: #[trigger] candidate_files(repositories, mods, game_version, shorter[j]@),
                        },
                    ) && shown(candidate_files(repositories, mods, game_version, shorter[j]@), existing)
                        && (best matches Some(b) ==> b.files.len() < candidate_files(
                        repositories,
                        mods,
                        game_version,
                        shorter[j]@,
                    ).len()) && forall|j2: int|
                        0 <= j2 < j && shown(
                            #[trigger] candidate_files(repositories, mods, game_version, shorter[j2]@),
                            existing,
                        ) ==> candidate_files(repositories, mods, game_version, shorter[j2]@).len()
                            < candidate_files(repositories, mods, game_version, shorter[j]@).len();
                assert(shorter[j] == loaders[j]);
                assert forall|j2: int|
                    0 <= j2 < j && shown(
                        #[trigger] candidate_files(repositories, mods, game_version, loaders[j2]@),
                        existing,
                    ) implies candidate_files(repositories, mods, game_version, loaders[j2]@).len()
                        < candidate_files(repositories, mods, game_version, loaders[j]@).len() by {
                    assert(shorter[j2] == loaders[j2]);
                }
            }
        } else {
            assert(r == Some(candidate) && shown(files, existing));
            if let Some(b) = best {
                assert(has_at_least(best, b.files.len()));
                assert(has_at_least(before, b.files.len()));
            }
            assert forall|j2: int|
                0 <= j2 < last && shown(
                    #[trigger] candidate_files(repositories, mods, game_version, loaders[j2]@),
                    existing,
                ) implies candidate_files(repositories, mods, game_version, loaders[j2]@).len()
                    < files.len() by {
                assert(shorter[j2] == loaders[j2]);
                assert(has_at_least(
                    before,
                    candidate_files(repositories, mods, game_version, shorter[j2]@).len(),
                ));
            }
        }
    }
}

impl PackConfig {
    proof fn lemma_versions_most(
        self,
        best: Option<InstalledView>,
        branch: Seq<char>,
        mods: Seq<ModEntry>,
        versions: Seq<String>,
        existing: Seq<Seq<char>>,
    )
        ensures
            ({
                let r = self.best_over_versions(best, branch, mods, versions, existing);
                let repositories = self.repositories_spec();
                &&& forall|n: nat| #[trigger] has_at_least(best, n) ==> has_at_least(r, n)
                &&& forall|i: int, j: int|
                    0 <= i < versions.len() && 0 <= j < self.loaders_for_spec(versions[i]@).len()
                        && shown(
                        #[trigger] candidate_files(
                            repositories,
                            mods,
                            versions[i]@,
                            self.loaders_for_spec(versions[i]@)[j]@,
                        ),
                        existing,
                    ) ==> has_at_least(
                        r,
                        candidate_files(
                            repositories,
                            mods,
                            versions[i]@,
                            self.loaders_for_spec(versions[i]@)[j]@,
                        ).len(),
                    )
                &&& r == best || exists|i: int, j: int|
                    0 <= i < versions.len() && 0 <= j < self.loaders_for_spec(versions[i]@).len()
                        && r == Some(
                        InstalledView {
                            branch,
                            game_version: versions[i]@,
                            loader: self.loaders_for_spec(versions[i]@)[j]@,
                            files: #[trigger] candidate_files(
                                repositories,
                                mods,
                                versions[i]@,
                                self.loaders_for_spec(versions[i]@)[j]@,
                            ),
                        },
                    ) && shown(
                        candidate_files(
                            repositories,
                            mods,
                            versions[i]@,
                            self.loaders_for_spec(versions[i]@)[j]@,
                        ),
                        existing,
                    )
            }),
        decreases versions.len(),
    {
        if versions.len() > 0 {
            let repositories = self.repositories_spec();
            let shorter = versions.drop_last();
            self.lemma_versions_most(best, branch, mods, shorter, existing);
            let before = self.best_over_versions(best, branch, mods, shorter, existing);
            let last = versions.len() - 1;
            let game_version = versions[last]@;
            let loaders = self.loaders_for_spec(game_version);
            lemma_loaders_most(before, repositories, branch, mods, game_version, loaders, existing);
            let r = self.best_over_versions(best, branch, mods, versions, existing);
            assert(r == best_over_loaders(before, repositories, branch, mods, game_version, loaders, existing));
            assert forall|n: nat| #[trigger] has_at_least(best, n) implies has_at_least(r, n) by {
                assert(has_at_least(before, n));
            }
            assert forall|i: int, j: int|
                0 <= i < versions.len() && 0 <= j < self.loaders_for_spec(versions[i]@).len()
                    && shown(
                    #[trigger] candidate_files(
                        repositories,
                        mods,
                        versions[i]@,
                        self.loaders_for_spec(versions[i]@)[j]@,
                    ),
                    existing,
                ) implies has_at_least(
                r,
                candidate_files(
                    repositories,
                    mods,
                    versions[i]@,
                    self.loaders_for_spec(versions[i]@)[j]@,
                ).len(),
            ) by {
                if i < last {
                    assert(shorter[i] == versions[i]);
                    let n = candidate_files(
                        repositories,
                        mods,
                        shorter[i]@,
                        self.loaders_for_spec(shorter[i]@)[j]@,
                    ).len();
                    assert(has_at_least(before, n));
                } else {
                    assert(candidate_files(repositories, mods, game_version, loaders[j]@).len() >= 0);
                }
            }
            if r != best {
                if r == before {
                    let (i, j) = choose|i: int, j: int|
                        0 <= i < shorter.len() && 0 <= j < self.loaders_for_spec(shorter[i]@).len()
                            && before == Some(
                            InstalledView {
                                branch,
                                game_version: shorter[i]@,
                                loader: self.loaders_for_spec(shorter[i]@)[j]@,
                                files: #[trigger] candidate_files(
                                    repositories,
                                    mods,
                                    shorter[i]@,
                                    self.loaders_for_spec(shorter[i]@)[j]@,
                                ),
                            },
                        ) && shown(
                            candidate_files(
                                repositories,
                                mods,
                                shorter[i]@,
                                self.loaders_for_spec(shorter[i]@)[j]@,
                            ),
                            existing,
                        );
                    assert(shorter[i] == versions[i]);
                } else {
                    let j = choose|j: int|
                        0 <= j < loaders.len() && r == Some(
                            InstalledView {
                                branch,
                                game_version,
                                loader: loaders[j]@,
                                files: #[trigger] candidate_files(repositories, mods, game_version, loaders[j]@),
                            },
                        ) && shown(candidate_files(repositories, mods, game_version, loaders[j]@), existing);
                    assert(candidate_files(
                        repositories,
                        mods,
                        versions[last]@,
                        self.loaders_for_spec(versions[last]@)[j]@,
                    ) == candidate_files(repositories, mods, game_version, loaders[j]@));
                }
            }
        }
    }
}

impl PackConfig {
    /// The files that installing `mods` as branch for the `i`th offered game version of
    /// `versions` and its `j`th offered loader writes.
    pub open spec fn files_at(self, mods: Seq<ModEntry>, versions: Seq<String>, i: int, j: int) -> Seq<
        Seq<char>,
    > {
        candidate_files(
            self.repositories_spec(),
            mods,
            versions[i]@,
            self.loaders_for_spec(versions[i]@)[j]@,
        )
    }

    proof fn lemma_versions_first(
        self,
        best: Option<InstalledView>,
        branch: Seq<char>,
        mods: Seq<ModEntry>,
        versions: Seq<String>,
        existing: Seq<Seq<char>>,
    )
        ensures
            ({
                let r = self.best_over_versions(best, branch, mods, versions, existing);
                r == best || exists|i: int, j: int|
                    0 <= i < versions.len() && 0 <= j < self.loaders_for_spec(versions[i]@).len()
                        && r == Some(
                        InstalledView {
                            branch,
                            game_version: versions[i]@,
                            loader: self.loaders_for_spec(versions[i]@)[j]@,
                            files: #[trigger] self.files_at(mods, versions, i, j),
                        },
                    ) && shown(self.files_at(mods, versions, i, j), existing) && (best matches Some(b)
                        ==> b.files.len() < self.files_at(mods, versions, i, j).len()) && forall|
                        i2: int,
                        j2: int,
                    |
                        ((0 <= i2 < i && 0 <= j2 < self.loaders_for_spec(versions[i2]@).len()) || (i2
                            == i && 0 <= j2 < j)) && shown(
                            #[trigger] self.files_at(mods, versions, i2, j2),
                            existing,
                        ) ==> self.files_at(mods, versions, i2, j2).len() < self.files_at(
                            mods,
                            versions,
                            i,
                            j,
                        ).len()
            }),
        decreases versions.len(),
    {
        if versions.len() > 0 {
            let repositories = self.repositories_spec();
            let shorter = versions.drop_last();
            self.lemma_versions_first(best, branch, mods, shorter, existing);
            self.lemma_versions_most(best, branch, mods, shorter, existing);
            let before = self.best_over_versions(best, branch, mods, shorter, existing);
            let last = versions.len() - 1;
            let game_version = versions[last]@;
            let loaders = self.loaders_for_spec(game_version);
            lemma_loaders_first(before, repositories, branch, mods, game_version, loaders, existing);
            lemma_loaders_most(before, repositories, branch, mods, game_version, loaders, existing);
            let r = self.best_over_versions(best, branch, mods, versions, existing);
            assert(r == best_over_loaders(before, repositories, branch, mods, game_version, loaders, existing));
            assert forall|i: int, j: int| 0 <= i < shorter.len() implies #[trigger] self.files_at(
                mods,
                shorter,
                i,
                j,
            ) == self.files_at(mods, versions, i, j) by {
                assert(shorter[i] == versions[i]);
            }
            if r == before {
                if r != best {
                    let (i, j) = choose|i: int, j: int|
                        0 <= i < shorter.len() && 0 <= j < self.loaders_for_spec(shorter[i]@).len()
                            && before == Some(
                            InstalledView {
                                branch,
                                game_version: shorter[i]@,
                                loader: self.loaders_for_spec(shorter[i]@)[j]@,
                                files: #[trigger] self.files_at(mods, shorter, i, j),
                            },
                        ) && shown(self.files_at(mods, shorter, i, j), existing) && (best matches Some(b)
                            ==> b.files.len() < self.files_at(mods, shorter, i, j).len()) && forall|
                            i2: int,
                            j2: int,
                        |
                            ((0 <= i2 < i && 0 <= j2 < self.loaders_for_spec(shorter[i2]@).len()) || (i2
                                == i && 0 <= j2 < j)) && shown(
                                #[trigger] self.files_at(mods, shorter, i2, j2),
                                existing,
                            ) ==> self.files_at(mods, shorter, i2, j2).len() < self.files_at(
                                mods,
                                shorter,
                                i,
                                j,
                            ).len();
                    assert(shorter[i] == versions[i]);
                    assert(self.files_at(mods, shorter, i, j) == self.files_at(mods, versions, i, j));
                    assert forall|i2: int, j2: int|
                        ((0 <= i2 < i && 0 <= j2 < self.loaders_for_spec(versions[i2]@).len()) || (i2
                            == i && 0 <= j2 < j)) && shown(
                            #[trigger] self.files_at(mods, versions, i2, j2),
                            existing,
                        ) implies self.files_at(mods, versions, i2, j2).len() < self.files_at(
                        mods,
                        versions,
                        i,
                        j,
                    ).len() by {
                        assert(shorter[i2] == versions[i2]);
                        assert(self.files_at(mods, shorter, i2, j2) == self.files_at(mods, versions, i2, j2));
                    }
                }
            } else {
                let j = choose|j: int|
                    0 <= j < loaders.len() && r == Some(
                        InstalledView {
                            branch,
                            game_version,
                            loader: loaders[j]@,
                            files: #[trigger] candidate_files(repositories, mods, game_version, loaders[j]@),
                        },
                    ) && shown(candidate_files(repositories, mods, game_version, loaders[j]@), existing)
                        && (before matches Some(b) ==> b.files.len() < candidate_files(
                        repositories,
                        mods,
                        game_version,
                        loaders[j]@,
                    ).len()) && forall|j2: int|
                        0 <= j2 < j && shown(
                            #[trigger] candidate_files(repositories, mods, game_version, loaders[j2]@),
                            existing,
                        ) ==> candidate_files(repositories, mods, game_version, loaders[j2]@).len()
                            < candidate_files(repositories, mods, game_version, loaders[j]@).len();
                let n = self.files_at(mods, versions, last, j).len();
                assert(self.files_at(mods, versions, last, j) == candidate_files(
                    repositories,
                    mods,
                    game_version,
                    loaders[j]@,
                ));
                if let Some(b) = best {
                    assert(has_at_least(best, b.files.len()));
                    assert(has_at_least(before, b.files.len()));
                }
                assert forall|i2: int, j2: int|
                    ((0 <= i2 < last && 0 <= j2 < self.loaders_for_spec(versions[i2]@).len()) || (i2
                        == last && 0 <= j2 < j)) && shown(
                        #[trigger] self.files_at(mods, versions, i2, j2),
                        existing,
                    ) implies self.files_at(mods, versions, i2, j2).len() < n by {
                    if i2 < last {
                        assert(shorter[i2] == versions[i2]);
                        assert(self.files_at(mods, shorter, i2, j2) == self.files_at(mods, versions, i2, j2));
                        assert(has_at_least(before, self.files_at(mods, shorter, i2, j2).len()));
                    } else {
                        assert(self.files_at(mods, versions, i2, j2) == candidate_files(
                            repositories,
                            mods,
                            game_version,
                            loaders[j2]@,
                        ));
                    }
                }
            }
        }
    }
}

/// Position `(k2, i2, j2)` comes before `(k, i, j)` when the packs, then their game
/// versions, then their loaders are gone through in order.
pub open spec fn comes_before(k2: int, i2: int, j2: int, k: int, i: int, j: int) -> bool {
    k2 < k || (k2 == k && i2 < i) || (k2 == k && i2 == i && j2 < j)
}

impl PackConfig {
    /// Pack `k` is offered and resolves, `i` is an offered game version and `j` a loader
    /// offered for it, and `d` is what installing them writes into a mods folder.
    pub open spec fn candidate_at(self, k: int, i: int, j: int, d: InstalledView) -> bool {
        let packs = self.packs_spec();
        let versions = self.game_versions_spec();
        &&& 0 <= k < packs.len()
        &&& crate::catalog::is_core(packs[k].1)
        &&& resolution(packs, packs[k].0@) is Ok
        &&& 0 <= i < versions.len()
        &&& 0 <= j < self.loaders_for_spec(versions[i]@).len()
        &&& d == InstalledView {
            branch: packs[k].0@,
            game_version: versions[i]@,
            loader: self.loaders_for_spec(versions[i]@)[j]@,
            files: candidate_files(
                self.repositories_spec(),
                resolution(packs, packs[k].0@)->Ok_0,
                versions[i]@,
                self.loaders_for_spec(versions[i]@)[j]@,
            ),
        }
    }

    proof fn lemma_packs_most(self, count: int, existing: Seq<Seq<char>>)
        requires
            count <= self.packs_spec().len(),
        ensures
            forall|k: int, i: int, j: int, d: InstalledView|
                k < count && #[trigger] self.candidate_at(k, i, j, d) && shown(d.files, existing)
                    ==> has_at_least(self.best_over_packs(count, existing), d.files.len()),
            self.best_over_packs(count, existing) matches Some(d) ==> exists|k: int, i: int, j: int|
                k < count && #[trigger] self.candidate_at(k, i, j, d) && shown(d.files, existing),
        decreases count,
    {
        if count > 0 {
            self.lemma_packs_most(count - 1, existing);
            let before = self.best_over_packs(count - 1, existing);
            let r = self.best_over_packs(count, existing);
            let packs = self.packs_spec();
            let versions = self.game_versions_spec();
            let repositories = self.repositories_spec();
            let last = count - 1;
            let p = packs[last];
            if crate::catalog::is_core(p.1) && resolution(packs, p.0@) is Ok {
                let mods = resolution(packs, p.0@)->Ok_0;
                self.lemma_versions_most(before, p.0@, mods, versions, existing);
                assert(r == self.best_over_versions(before, p.0@, mods, versions, existing));
                assert forall|k: int, i: int, j: int, d: InstalledView|
                    k < count && #[trigger] self.candidate_at(k, i, j, d) && shown(d.files, existing)
                        implies has_at_least(r, d.files.len()) by {
                    if k < last {
                        assert(has_at_least(before, d.files.len()));
                    } else {
                        assert(d.files == candidate_files(
                            repositories,
                            mods,
                            versions[i]@,
                            self.loaders_for_spec(versions[i]@)[j]@,
                        ));
                    }
                }
                if r is Some {
                    let d = r->0;
                    if r != before {
                        let (i, j) = choose|i: int, j: int|
                            0 <= i < versions.len() && 0 <= j < self.loaders_for_spec(versions[i]@).len()
                                && r == Some(
                                InstalledView {
                                    branch: p.0@,
                                    game_version: versions[i]@,
                                    loader: self.loaders_for_spec(versions[i]@)[j]@,
                                    files: #[trigger] candidate_files(
                                        repositories,
                                        mods,
                                        versions[i]@,
                                        self.loaders_for_spec(versions[i]@)[j]@,
                                    ),
                                },
                            ) && shown(
                                candidate_files(
                                    repositories,
                                    mods,
                                    versions[i]@,
                                    self.loaders_for_spec(versions[i]@)[j]@,
                                ),
                                existing,
                            );
                        assert(self.candidate_at(last, i, j, d));
                    }
                }
            } else {
                assert(r == before);
            }
        }
    }

    proof fn lemma_packs_first(self, count: int, existing: Seq<Seq<char>>)
        requires
            count <= self.packs_spec().len(),
        ensures
            self.best_over_packs(count, existing) matches Some(d) ==> exists|k: int, i: int, j: int|
                k < count && #[trigger] self.candidate_at(k, i, j, d) && shown(d.files, existing)
                    && forall|k2: int, i2: int, j2: int, d2: InstalledView|
                    #[trigger] self.candidate_at(k2, i2, j2, d2) && shown(d2.files, existing)
                        && comes_before(k2, i2, j2, k, i, j) ==> d2.files.len() < d.files.len(),
        decreases count,
    {
        if count > 0 {
            self.lemma_packs_first(count - 1, existing);
            self.lemma_packs_most(count - 1, existing);
            let before = self.best_over_packs(count - 1, existing);
            let r = self.best_over_packs(count, existing);
            let packs = self.packs_spec();
            let versions = self.game_versions_spec();
            let repositories = self.repositories_spec();
            let last = count - 1;
            let p = packs[last];
            if crate::catalog::is_core(p.1) && resolution(packs, p.0@) is Ok {
                let mods = resolution(packs, p.0@)->Ok_0;
                self.lemma_versions_first(before, p.0@, mods, versions, existing);
                assert(r == self.best_over_versions(before, p.0@, mods, versions, existing));
                if r is Some && r != before {
                    let d = r->0;
                    let (i, j) = choose|i: int, j: int|
                        0 <= i < versions.len() && 0 <= j < self.loaders_for_spec(versions[i]@).len()
                            && r == Some(
                            InstalledView {
                                branch: p.0@,
                                game_version: versions[i]@,
                                loader: self.loaders_for_spec(versions[i]@)[j]@,
                                files: #[trigger] self.files_at(mods, versions, i, j),
                            },
                        ) && shown(self.files_at(mods, versions, i, j), existing) && (before matches Some(
                            b,
                        ) ==> b.files.len() < self.files_at(mods, versions, i, j).len()) && forall|
                            i2: int,
                            j2: int,
                        |
                            ((0 <= i2 < i && 0 <= j2 < self.loaders_for_spec(versions[i2]@).len()) || (i2
                                == i && 0 <= j2 < j)) && shown(
                                #[trigger] self.files_at(mods, versions, i2, j2),
                                existing,
                            ) ==> self.files_at(mods, versions, i2, j2).len() < self.files_at(
                                mods,
                                versions,
                                i,
                                j,
                            ).len();
                    assert(self.candidate_at(last, i, j, d));
                    assert forall|k2: int, i2: int, j2: int, d2: InstalledView|
                        #[trigger] self.candidate_at(k2, i2, j2, d2) && shown(d2.files, existing)
                            && comes_before(k2, i2, j2, last, i, j) implies d2.files.len()
                            < d.files.len() by {
                        if k2 < last {
                            assert(has_at_least(before, d2.files.len()));
                        } else {
                            assert(d2.files == self.files_at(mods, versions, i2, j2));
                        }
                    }
                }
            } else {
                assert(r == before);
            }
        }
    }

    /// Detection from the file names in a mods folder finds the candidate with the most files:
    /// for each offered pack that resolves, each offered game version and each loader offered
    /// for it, whose files are there (at least one, each in the folder), an installation is
    /// detected, and it has at least as many files. What is detected is itself such a
    /// candidate whose files are there, and every such candidate that comes before it, going
    /// through the packs, their game versions and their loaders in order, has fewer files: of
    /// the candidates with the most files, the first wins.
    pub proof fn lemma_detect_most_files(self, existing: Seq<Seq<char>>)
        ensures
            forall|k: int, i: int, j: int, d: InstalledView|
                #[trigger] self.candidate_at(k, i, j, d) && shown(d.files, existing) ==> has_at_least(
                    self.detect_from_files_spec(existing),
                    d.files.len(),
                ),
            self.detect_from_files_spec(existing) matches Some(d) ==> exists|k: int, i: int, j: int|
                #[trigger] self.candidate_at(k, i, j, d) && shown(d.files, existing)
                    && forall|k2: int, i2: int, j2: int, d2: InstalledView|
                    #[trigger] self.candidate_at(k2, i2, j2, d2) && shown(d2.files, existing)
                        && comes_before(k2, i2, j2, k, i, j) ==> d2.files.len() < d.files.len(),
    {
        self.lemma_packs_most(self.packs_spec().len() as int, existing);
        self.lemma_packs_first(self.packs_spec().len() as int, existing);
    }
}

} // verus!
