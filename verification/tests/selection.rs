use nrctool::model::{CompatibilityTarget, InstallProgress, InstalledPack, Listing, ModEntry, ModSource, Pack, PackConfig};
use nrctool::selection::{action_label, capitalize_with, decimal, installed_summary, title_case, Selection};

fn s(text: &str) -> String {
    text.to_string()
}

fn config() -> PackConfig {
    let target = CompatibilityTarget { identifier: s("1"), filename: None, source: None };
    let m = ModEntry {
        id: s("m"),
        source: ModSource { kind: s("modrinth"), project_slug: Some(s("m")), repository_ref: None, group_id: None, artifact_id: None },
        compatibility: vec![
            (s("1.21"), vec![(s("fabric"), target.clone()), (s("forge"), target.clone())]),
            (s("1.20"), vec![(s("forge"), target.clone())]),
        ],
    };
    let pack = Pack {
        display_name: s("Stable"),
        inherits_from: None,
        exclude_mods: None,
        mods: vec![m],
        listing: Listing { category: s("") },
    };
    PackConfig::new(vec![(s("norisk-stable"), pack)], vec![]).unwrap()
}

fn selection(v: &str, l: &str, b: &str) -> Selection {
    Selection { game_version: s(v), loader: s(l), branch: s(b) }
}

#[test]
fn reconcile_keeps_valid_choices() {
    let mut sel = selection("1.20", "forge", "norisk-stable");
    sel.reconcile(&config());
    assert_eq!((sel.game_version.as_str(), sel.loader.as_str(), sel.branch.as_str()), ("1.20", "forge", "norisk-stable"));
}

#[test]
fn reconcile_replaces_invalid_choices() {
    let mut sel = selection("1.8", "fabric", "missing");
    sel.reconcile(&config());
    assert_eq!((sel.game_version.as_str(), sel.loader.as_str(), sel.branch.as_str()), ("1.21", "fabric", "norisk-stable"));
    let mut sel = selection("1.20", "fabric", "");
    sel.reconcile(&config());
    assert_eq!(sel.loader, "forge");
    let before = (sel.game_version.clone(), sel.loader.clone(), sel.branch.clone());
    sel.reconcile(&config());
    assert_eq!((sel.game_version.clone(), sel.loader.clone(), sel.branch.clone()), before);
}

#[test]
fn reconcile_with_nothing_offered_clears_choices() {
    let empty = PackConfig::new(vec![], vec![]).unwrap();
    let mut sel = selection("1.21", "fabric", "x");
    sel.reconcile(&empty);
    assert_eq!((sel.game_version.as_str(), sel.loader.as_str(), sel.branch.as_str()), ("", "", ""));
}

#[test]
fn adopt_takes_detected_install_with_branch() {
    let mut sel = selection("a", "b", "c");
    sel.adopt(&InstalledPack { branch: s(""), game_version: s("x"), loader: s("y"), files: vec![] });
    assert_eq!(sel.game_version, "a");
    sel.adopt(&InstalledPack { branch: s("base"), game_version: s("1.21"), loader: s("fabric"), files: vec![] });
    assert_eq!((sel.game_version.as_str(), sel.loader.as_str(), sel.branch.as_str()), ("1.21", "fabric", "base"));
}

#[test]
fn install_needs_all_choices() {
    assert!(selection("1.21", "fabric", "b").can_install(true));
    assert!(!selection("1.21", "fabric", "b").can_install(false));
    assert!(!selection("1.21", "", "b").can_install(true));
}

#[test]
fn action_labels() {
    let sel = selection("1.21", "fabric", "base");
    assert_eq!(action_label(None, &sel), "Install NoRisk pack");
    let same = InstalledPack { branch: s("base"), game_version: s("1.21"), loader: s("fabric"), files: vec![] };
    assert_eq!(action_label(Some(&same), &sel), "Update NoRisk pack");
    let other = InstalledPack { branch: s("base"), game_version: s("1.20"), loader: s("fabric"), files: vec![] };
    assert_eq!(action_label(Some(&other), &sel), "Switch NoRisk pack");
}

#[test]
fn title_case_upper_cases_first_character() {
    assert_eq!(title_case("fabric"), "Fabric");
    assert_eq!(title_case("neoForge"), "NeoForge");
    assert_eq!(title_case(""), "");
    assert_eq!(title_case("\u{df}x"), "SSx");
    assert_eq!(capitalize_with("Q", "quilt"), "Quilt");
    assert_eq!(capitalize_with("Q", ""), "");
}

#[test]
fn decimal_text() {
    assert_eq!(decimal(0), "0");
    assert_eq!(decimal(7), "7");
    assert_eq!(decimal(1024), "1024");
    assert_eq!(decimal(usize::MAX), usize::MAX.to_string());
}

#[test]
fn progress_status_lines() {
    let p = InstallProgress::Progress { completed: 3, total: 12, filename: s("sodium.jar") };
    assert_eq!(p.status(), "Installing sodium.jar (3/12)");
    assert_eq!(InstallProgress::Finished(12).status(), "Installed 12 mods successfully");
    assert_eq!(InstallProgress::Failed(s("boom")).status(), "boom");
}

#[test]
fn installed_summary_lines() {
    let named = InstalledPack { branch: s("norisk-stable"), game_version: s("1.21"), loader: s("fabric"), files: vec![] };
    assert_eq!(installed_summary(&named), "Installed: norisk-stable \u{b7} 1.21 \u{b7} Fabric");
    let anonymous = InstalledPack { branch: s(""), game_version: s(""), loader: s(""), files: vec![] };
    assert_eq!(installed_summary(&anonymous), "Detected a NoRisk pack previously used with this tool.");
}

#[test]
fn reports_change_the_installing_state() {
    let p = InstallProgress::Progress { completed: 1, total: 2, filename: "a.jar".to_string() };
    let e = p.effect(true);
    assert!(e.installing && !e.refresh_installed);
    let e = InstallProgress::Finished(2).effect(true);
    assert!(!e.installing && e.refresh_installed);
    let e = InstallProgress::Failed("x".to_string()).effect(true);
    assert!(!e.installing && !e.refresh_installed);
}
