use vstd::prelude::*;

use crate::install::InstalledView;
use crate::model::{contains_text, texts, Branch, InstallProgress, InstalledPack, PackConfig};
use crate::text::{join2, join3, same_text};

verus! {

broadcast use vstd::seq_lib::group_seq_properties;

// ---------------------------------------------------------------------------------------------
// Text shown to the user.
// ---------------------------------------------------------------------------------------------

/// The upper-case form of a character, as `char::to_uppercase` gives it (one to three
/// characters, by the Unicode tables of std).
pub uninterp spec fn uppercase_of(c: char) -> Seq<char>;

/// Calls `char::to_uppercase` and collects the characters it gives into a `String`. The
/// contract claims that the text is `uppercase_of(c)`, a function of `c` alone, and, as std
/// documents for ASCII, that a small letter `a` to `z` gives its capital. What the text is
/// for other characters, the Unicode tables of std decide, and no clause states it.
#[verifier::external_body]
fn upper_case(c: char) -> (r: String)
    ensures
        r@ == uppercase_of(c),
        'a' <= c <= 'z' ==> r@ == seq![((c as u32) - 32) as char],
{
    c.to_uppercase().collect()
}

/// A text with its first character replaced by `first_upper`; the empty text stays empty.
pub open spec fn capitalized(first_upper: Seq<char>, value: Seq<char>) -> Seq<char> {
    if value.len() == 0 {
        Seq::empty()
    } else {
        first_upper + value.drop_first()
    }
}

/// A text with its first character in upper case.
pub open spec fn title_case_spec(value: Seq<char>) -> Seq<char> {
    if value.len() == 0 {
        Seq::empty()
    } else {
        capitalized(uppercase_of(value[0]), value)
    }
}

/// A text with its first character replaced by `first_upper`, the upper-case form of that
/// character; the empty text stays empty.
pub fn capitalize_with(first_upper: &str, value: &str) -> (r: String)
    ensures
        r@ == capitalized(first_upper@, value@),
{
    let n = value.unicode_len();
    if n == 0 {
        return String::new();
    }
    let rest = value.substring_char(1, n);
    assert(value@.subrange(1, n as int) =~= value@.drop_first());
    join2(first_upper, rest)
}

/// A text with its first character in upper case.
pub fn title_case(value: &str) -> (r: String)
    ensures
        r@ == title_case_spec(value@),
        value@.len() > 0 && 'a' <= value@[0] <= 'z' ==> r@ == seq![((value@[0] as u32) - 32) as char]
            + value@.drop_first(),
{
    let n = value.unicode_len();
    if n == 0 {
        return String::new();
    }
    let up = upper_case(value.get_char(0));
    capitalize_with(up.as_str(), value)
}

/// The character of a decimal digit.
pub open spec fn digit_char(d: nat) -> char {
    if d == 0 {
        '0'
    } else if d == 1 {
        '1'
    } else if d == 2 {
        '2'
    } else if d == 3 {
        '3'
    } else if d == 4 {
        '4'
    } else if d == 5 {
        '5'
    } else if d == 6 {
        '6'
    } else if d == 7 {
        '7'
    } else if d == 8 {
        '8'
    } else {
        '9'
    }
}

/// The decimal text of a number, as `Display` writes it.
pub open spec fn decimal_spec(n: nat) -> Seq<char>
    decreases n,
{
    if n < 10 {
        seq![digit_char(n)]
    } else {
        decimal_spec(n / 10) + seq![digit_char(n % 10)]
    }
}

/// The decimal text of a number.
pub fn decimal(n: usize) -> (r: String)
    ensures
        r@ == decimal_spec(n as nat),
    decreases n,
{
    proof {
        reveal_strlit("0123456789");
    }
    let digits = "0123456789";
    let d = n % 10;
    let digit = digits.substring_char(d, d + 1);
    assert(digit@ =~= seq![digit_char(d as nat)]);
    if n < 10 {
        String::from_str(digit)
    } else {
        let mut s = decimal(n / 10);
        s.append(digit);
        s
    }
}

/// The status line shown for a report of an installation.
pub open spec fn progress_status_spec(completed: nat, total: nat, filename: Seq<char>) -> Seq<char> {
    "Installing "@ + filename + " ("@ + decimal_spec(completed) + "/"@ + decimal_spec(total)
        + ")"@
}

/// The status line shown when an installation is done.
pub open spec fn finished_status_spec(count: nat) -> Seq<char> {
    "Installed "@ + decimal_spec(count) + " mods successfully"@
}

impl InstallProgress {
    /// The status line shown for this report.
    pub fn status(&self) -> (r: String)
        ensures
            r@ == match self {
                InstallProgress::Progress { completed, total, filename } => progress_status_spec(
                    *completed as nat,
                    *total as nat,
                    filename@,
                ),
                InstallProgress::Finished(count) => finished_status_spec(*count as nat),
                InstallProgress::Failed(error) => error@,
            },
    {
        match self {
            InstallProgress::Progress { completed, total, filename } => {
                let mut s = join3("Installing ", filename.as_str(), " (");
                let c = decimal(*completed);
                s.append(c.as_str());
                s.append("/");
                let t = decimal(*total);
                s.append(t.as_str());
                s.append(")");
                s
            },
            InstallProgress::Finished(count) => {
                let c = decimal(*count);
                join3("Installed ", c.as_str(), " mods successfully")
            },
            InstallProgress::Failed(error) => error.clone(),
        }
    }
}

/// What a report of the installation changes in the window besides its status text: whether
/// an installation is still running, and whether what is installed should be detected again.
pub struct ReportEffect {
    pub installing: bool,
    pub refresh_installed: bool,
}

impl InstallProgress {
    /// The effect of this report when `installing` tells whether an installation was
    /// running: progress changes neither; the end of an installation stops it and, when it
    /// succeeded, asks to detect what is installed again.
    pub fn effect(&self, installing: bool) -> (r: ReportEffect)
        ensures
            match self {
                InstallProgress::Progress { .. } => r.installing == installing && !r.refresh_installed,
                InstallProgress::Finished(_) => !r.installing && r.refresh_installed,
                InstallProgress::Failed(_) => !r.installing && !r.refresh_installed,
            },
    {
        match self {
            InstallProgress::Progress { .. } => ReportEffect { installing, refresh_installed: false },
            InstallProgress::Finished(_) => ReportEffect { installing: false, refresh_installed: true },
            InstallProgress::Failed(_) => ReportEffect { installing: false, refresh_installed: false },
        }
    }
}

/// The line that tells what is installed in the selected folder.
pub open spec fn installed_summary_spec(installed: InstalledView) -> Seq<char> {
    if installed.branch.len() == 0 {
        "Detected a NoRisk pack previously used with this tool."@
    } else {
        "Installed: "@ + installed.branch + " \u{b7} "@ + installed.game_version + " \u{b7} "@
            + title_case_spec(installed.loader)
    }
}

/// The line that tells what is installed in the selected folder.
pub fn installed_summary(installed: &InstalledPack) -> (r: String)
    ensures
        r@ == installed_summary_spec(installed@),
{
    if installed.branch.as_str().is_empty() {
        return String::from_str("Detected a NoRisk pack previously used with this tool.");
    }
    let mut s = join3("Installed: ", installed.branch.as_str(), " \u{b7} ");
    s.append(installed.game_version.as_str());
    s.append(" \u{b7} ");
    let loader = title_case(installed.loader.as_str());
    s.append(loader.as_str());
    s
}

// ---------------------------------------------------------------------------------------------
// The choices of game version, loader and branch.
// ---------------------------------------------------------------------------------------------

/// The game version, loader and branch chosen in the window.
pub struct Selection {
    pub game_version: String,
    pub loader: String,
    pub branch: String,
}

/// The mathematical value of a [`Selection`].
pub struct SelectionView {
    pub game_version: Seq<char>,
    pub loader: Seq<char>,
    pub branch: Seq<char>,
}

impl View for Selection {
    type V = SelectionView;

    open spec fn view(&self) -> SelectionView {
        SelectionView {
            game_version: self.game_version@,
            loader: self.loader@,
            branch: self.branch@,
        }
    }
}

/// The ids of a list of branches.
pub open spec fn branch_ids(bs: Seq<Branch>) -> Seq<Seq<char>> {
    bs.map_values(|b: Branch| b.id@)
}

/// The choice kept if it is among the options, or else the first option, or else nothing.
pub open spec fn keep_or_first(options: Seq<Seq<char>>, current: Seq<char>) -> Seq<char> {
    if options.contains(current) {
        current
    } else if options.len() > 0 {
        options[0]
    } else {
        Seq::empty()
    }
}

/// The choices made consistent with what the manifest offers: the game version among the
/// offered ones, the loader among those for it, the branch among those for both.
pub open spec fn reconciled(config: PackConfig, s: SelectionView) -> SelectionView {
    let game_version = keep_or_first(texts(config.game_versions_spec()), s.game_version);
    let loader = keep_or_first(texts(config.loaders_for_spec(game_version)), s.loader);
    let branch = keep_or_first(
        branch_ids(config.branches_for_spec(game_version, loader)),
        s.branch,
    );
    SelectionView { game_version, loader, branch }
}

/// The choice kept if it is among the options, or else the first option, or else nothing.
fn keep_or_first_exec(options: &Vec<String>, current: &String) -> (r: String)
    ensures
        r@ == keep_or_first(texts(options@), current@),
{
    if contains_text(options, current.as_str()) {
        current.clone()
    } else if options.len() > 0 {
        options[0].clone()
    } else {
        String::new()
    }
}

impl Selection {
    /// Makes the choices consistent with what the manifest offers.
    pub fn reconcile(&mut self, config: &PackConfig)
        ensures
            final(self)@ == reconciled(*config, old(self)@),
    {
        let versions = config.game_versions();
        self.game_version = keep_or_first_exec(&versions, &self.game_version);
        let loaders = config.loaders_for(self.game_version.as_str());
        self.loader = keep_or_first_exec(&loaders, &self.loader);
        let branches = config.branches_for(self.game_version.as_str(), self.loader.as_str());
        let mut ids: Vec<String> = Vec::new();
        let mut i: usize = 0;
        while i < branches.len()
            invariant
                i <= branches.len(),
                texts(ids@) == branch_ids(branches@).take(i as int),
            decreases branches.len() - i,
        {
            let ghost before = ids@;
            ids.push(branches[i].id.clone());
            assert(texts(ids@) =~= texts(before).push(branches@[i as int].id@));
            assert(branch_ids(branches@).take(i as int + 1) =~= branch_ids(branches@).take(
                i as int,
            ).push(branches@[i as int].id@));
            i = i + 1;
        }
        assert(branch_ids(branches@).take(i as int) =~= branch_ids(branches@));
        self.branch = keep_or_first_exec(&ids, &self.branch);
    }

    /// Takes the game version, loader and branch of a detected installation, when it
    /// names its branch.
    pub fn adopt(&mut self, installed: &InstalledPack)
        ensures
            installed.branch@.len() > 0 ==> final(self)@ == (SelectionView {
                game_version: installed.game_version@,
                loader: installed.loader@,
                branch: installed.branch@,
            }),
            installed.branch@.len() == 0 ==> final(self)@ == old(self)@,
    {
        if !installed.branch.as_str().is_empty() {
            self.game_version = installed.game_version.clone();
            self.loader = installed.loader.clone();
            self.branch = installed.branch.clone();
        }
    }

    /// An installation can start: the manifest is loaded and each choice is made.
    pub fn can_install(&self, manifest_loaded: bool) -> (r: bool)
        ensures
            r == (manifest_loaded && self@.game_version.len() > 0 && self@.loader.len() > 0
                && self@.branch.len() > 0),
    {
        manifest_loaded && !self.game_version.as_str().is_empty() && !self.loader.as_str().is_empty()
            && !self.branch.as_str().is_empty()
    }
}

/// The text of the install button: install when nothing is installed, update when the
/// installation is the one chosen, switch otherwise.
pub open spec fn action_label_spec(installed: Option<InstalledView>, s: SelectionView) -> Seq<char> {
    match installed {
        None => "Install NoRisk pack"@,
        Some(i) => if i.branch == s.branch && i.game_version == s.game_version && i.loader
            == s.loader {
            "Update NoRisk pack"@
        } else {
            "Switch NoRisk pack"@
        },
    }
}

/// The text of the install button.
pub fn action_label(installed: Option<&InstalledPack>, selection: &Selection) -> (r: &'static str)
    ensures
        r@ == action_label_spec(
            match installed {
                Some(i) => Some(i@),
                None => None,
            },
            selection@,
        ),
{
    match installed {
        None => "Install NoRisk pack",
        Some(i) => {
            if same_text(i.branch.as_str(), selection.branch.as_str()) && same_text(
                i.game_version.as_str(),
                selection.game_version.as_str(),
            ) && same_text(i.loader.as_str(), selection.loader.as_str()) {
                "Update NoRisk pack"
            } else {
                "Switch NoRisk pack"
            }
        },
    }
}

proof fn lemma_keep_or_first(options: Seq<Seq<char>>, current: Seq<char>)
    ensures
        options.contains(keep_or_first(options, current)) || (options.len() == 0
            && keep_or_first(options, current).len() == 0),
        keep_or_first(options, keep_or_first(options, current)) == keep_or_first(options, current),
{
    if !options.contains(current) && options.len() > 0 {
        assert(options.contains(options[0]));
    }
}

/// Making the choices consistent twice is making them consistent once; and after it each
/// choice is one of those offered for the choices before it, or nothing when none is
/// offered.
pub proof fn lemma_reconcile(config: PackConfig, s: SelectionView)
    ensures
        reconciled(config, reconciled(config, s)) == reconciled(config, s),
        ({
            let r = reconciled(config, s);
            let versions = texts(config.game_versions_spec());
            let loaders = texts(config.loaders_for_spec(r.game_version));
            let branches = branch_ids(config.branches_for_spec(r.game_version, r.loader));
            &&& versions.contains(r.game_version) || (versions.len() == 0
                && r.game_version.len() == 0)
            &&& loaders.contains(r.loader) || (loaders.len() == 0 && r.loader.len() == 0)
            &&& branches.contains(r.branch) || (branches.len() == 0 && r.branch.len() == 0)
        }),
{
    let r = reconciled(config, s);
    lemma_keep_or_first(texts(config.game_versions_spec()), s.game_version);
    lemma_keep_or_first(texts(config.loaders_for_spec(r.game_version)), s.loader);
    lemma_keep_or_first(
        branch_ids(config.branches_for_spec(r.game_version, r.loader)),
        s.branch,
    );
}

} // verus!
