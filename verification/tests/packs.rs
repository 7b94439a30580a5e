use nrctool::catalog::{branch_order, compatible, loader_order};
use nrctool::download::{has_jar_header, maven_url, validate_filename};
use nrctool::error::{PackError, SourceField};
use nrctool::install::files_to_remove;
use nrctool::paths::Platform;
use nrctool::model::{
    Branch, CompatibilityTarget, Download, InstalledPack, Listing, ModEntry, ModSource, Pack,
    PackConfig,
};

fn s(text: &str) -> String {
    text.to_string()
}

fn modrinth(slug: &str) -> ModSource {
    ModSource {
        kind: s("modrinth"),
        project_slug: Some(s(slug)),
        repository_ref: None,
        group_id: None,
        artifact_id: None,
    }
}

fn target(identifier: &str, filename: Option<&str>) -> CompatibilityTarget {
    CompatibilityTarget { identifier: s(identifier), filename: filename.map(s), source: None }
}

fn entry(id: &str, source: ModSource, builds: &[(&str, &str, &str)]) -> ModEntry {
    let mut compatibility: Vec<(String, Vec<(String, CompatibilityTarget)>)> = Vec::new();
    for (version, loader, identifier) in builds {
        let pos = compatibility.iter().position(|(v, _)| v == version);
        let t = target(identifier, None);
        match pos {
            Some(i) => compatibility[i].1.push((s(loader), t)),
            None => compatibility.push((s(version), vec![(s(loader), t)])),
        }
    }
    ModEntry { id: s(id), source, compatibility }
}

fn pack(name: &str, parents: Option<&[&str]>, excluded: Option<&[&str]>, mods: Vec<ModEntry>, category: &str) -> Pack {
    Pack {
        display_name: s(name),
        inherits_from: parents.map(|p| p.iter().map(|x| s(x)).collect()),
        exclude_mods: excluded.map(|p| p.iter().map(|x| s(x)).collect()),
        mods,
        listing: Listing { category: s(category) },
    }
}

fn sample_config() -> PackConfig {
    let base = pack(
        "Base",
        None,
        None,
        vec![
            entry("sodium", modrinth("sodium"), &[("1.21", "fabric", "0.6"), ("1.20.4", "fabric", "0.5")]),
            entry("lithium", modrinth("lithium"), &[("1.21", "fabric", "0.12")]),
        ],
        "",
    );
    let stable = pack(
        "NoRisk Stable",
        Some(&["base"]),
        Some(&["lithium"]),
        vec![entry("nrc", modrinth("nrc"), &[("1.21", "fabric", "1.0"), ("1.21", "neoforge", "1.0n")])],
        "",
    );
    let partner = pack(
        "Partner",
        None,
        None,
        vec![entry("extra", modrinth("extra"), &[("1.19", "forge", "3")])],
        "partner",
    );
    PackConfig::new(
        vec![(s("base"), base), (s("norisk-stable"), stable), (s("partner-pack"), partner)],
        vec![(s("norisk"), s("https://maven.norisk.gg/repository/norisk-production/"))],
    )
    .expect("distinct pack ids")
}

#[test]
fn builds_maven_url() {
    assert_eq!(
        maven_url("https://repo/", "gg.norisk", "nrc", "1.0+fabric", "nrc-1.0.jar"),
        "https://repo/gg/norisk/nrc/1.0+fabric/nrc-1.0.jar"
    );
}

#[test]
fn maven_url_trims_every_trailing_slash() {
    assert_eq!(maven_url("https://repo///", "a.b.c", "x", "2", "x-2.jar"), "https://repo/a/b/c/x/2/x-2.jar");
    assert_eq!(maven_url("https://repo", "g", "x", "2", "f.jar"), "https://repo/g/x/2/f.jar");
}

#[test]
fn new_refuses_repeated_pack_ids() {
    let a = pack("A", None, None, vec![], "");
    let b = pack("B", None, None, vec![], "");
    assert!(PackConfig::new(vec![(s("x"), a), (s("x"), b)], vec![]).is_none());
}

#[test]
fn resolves_inherited_and_excluded_mods() {
    let config = sample_config();
    let mods = config.resolve_mods("norisk-stable").ok().expect("resolves");
    let ids: Vec<&str> = mods.iter().map(|m| m.id.as_str()).collect();
    assert_eq!(ids, vec!["sodium", "nrc"]);
}

#[test]
fn own_mod_replaces_inherited_one_in_place() {
    let base = pack("Base", None, None, vec![entry("a", modrinth("a"), &[]), entry("b", modrinth("b"), &[])], "");
    let child = pack("Child", Some(&["base"]), None, vec![entry("a", modrinth("a2"), &[]), entry("c", modrinth("c"), &[])], "");
    let config = PackConfig::new(vec![(s("base"), base), (s("child"), child)], vec![]).unwrap();
    let mods = config.resolve_mods("child").ok().unwrap();
    let ids: Vec<&str> = mods.iter().map(|m| m.id.as_str()).collect();
    assert_eq!(ids, vec!["a", "b", "c"]);
    assert_eq!(mods[0].source.project_slug.as_deref(), Some("a2"));
}

#[test]
fn circular_inheritance_is_an_error() {
    let a = pack("A", Some(&["b"]), None, vec![], "");
    let b = pack("B", Some(&["a"]), None, vec![], "");
    let config = PackConfig::new(vec![(s("a"), a), (s("b"), b)], vec![]).unwrap();
    match config.resolve_mods("a") {
        Err(e) => assert_eq!(e.message(), "Circular pack inheritance at a"),
        Ok(_) => panic!("a cycle resolved"),
    }
}

#[test]
fn unknown_branch_is_an_error() {
    let config = sample_config();
    match config.resolve_mods("nope") {
        Err(e) => assert_eq!(e.message(), "Unknown NoRisk branch: nope"),
        Ok(_) => panic!("unknown branch resolved"),
    }
}

#[test]
fn unknown_parent_is_an_error() {
    let a = pack("A", Some(&["ghost"]), None, vec![], "");
    let config = PackConfig::new(vec![(s("a"), a)], vec![]).unwrap();
    match config.resolve_mods("a") {
        Err(e) => assert_eq!(e.message(), "Unknown NoRisk branch: ghost"),
        Ok(_) => panic!("resolved"),
    }
}

#[test]
fn game_versions_newest_first_without_partner_packs() {
    let config = sample_config();
    assert_eq!(config.game_versions(), vec![s("1.21"), s("1.20.4")]);
}

#[test]
fn game_versions_compare_by_numbers() {
    let m = entry(
        "m",
        modrinth("m"),
        &[("1.9", "fabric", "1"), ("1.10", "fabric", "1"), ("1.20.1", "fabric", "1"), ("1.20", "fabric", "1")],
    );
    let config = PackConfig::new(vec![(s("p"), pack("P", None, None, vec![m], ""))], vec![]).unwrap();
    assert_eq!(config.game_versions(), vec![s("1.20.1"), s("1.20"), s("1.10"), s("1.9")]);
}

#[test]
fn loaders_in_rank_order() {
    let m = entry(
        "m",
        modrinth("m"),
        &[("1.21", "quilt", "1"), ("1.21", "forge", "1"), ("1.21", "fabric", "1"), ("1.21", "neoforge", "1"), ("1.21", "babric", "1")],
    );
    let config = PackConfig::new(vec![(s("p"), pack("P", None, None, vec![m], ""))], vec![]).unwrap();
    assert_eq!(
        config.loaders_for("1.21"),
        vec![s("fabric"), s("neoforge"), s("forge"), s("babric"), s("quilt")]
    );
    assert_eq!(config.loaders_for("1.0"), Vec::<String>::new());
    let sample = sample_config();
    assert_eq!(sample.loaders_for("1.21"), vec![s("fabric"), s("neoforge")]);
}

#[test]
fn loader_and_branch_ranks() {
    assert_eq!(loader_order("fabric"), (0, "fabric"));
    assert_eq!(loader_order("neoforge"), (1, "neoforge"));
    assert_eq!(loader_order("forge"), (2, "forge"));
    assert_eq!(loader_order("quilt"), (3, "quilt"));
    assert_eq!(branch_order("nrc-standalone"), (0, "nrc-standalone"));
    assert_eq!(branch_order("norisk-stable"), (1, "norisk-stable"));
    assert_eq!(branch_order("norisk-prod"), (2, "norisk-prod"));
    assert_eq!(branch_order("nrc-mini"), (3, "nrc-mini"));
    assert_eq!(branch_order("nrc-nightly"), (4, "nrc-nightly"));
    assert_eq!(branch_order("other"), (5, "other"));
}

fn ids(branches: &[Branch]) -> Vec<&str> {
    branches.iter().map(|b| b.id.as_str()).collect()
}

#[test]
fn branches_in_rank_order() {
    let m = || entry("m", modrinth("m"), &[("1.21", "fabric", "1")]);
    let config = PackConfig::new(
        vec![
            (s("zeta"), pack("Zeta", None, None, vec![m()], "")),
            (s("nrc-nightly"), pack("Nightly", None, None, vec![m()], "")),
            (s("norisk-prod"), pack("Prod", None, None, vec![m()], "")),
            (s("alpha"), pack("Alpha", None, None, vec![m()], "")),
            (s("nrc-standalone"), pack("Standalone", None, None, vec![m()], "")),
            (s("partner"), pack("Partner", None, None, vec![m()], "partner")),
            (s("other"), pack("Other", None, None, vec![], "")),
        ],
        vec![],
    )
    .unwrap();
    let branches = config.branches_for("1.21", "fabric");
    assert_eq!(ids(&branches), vec!["nrc-standalone", "norisk-prod", "nrc-nightly", "alpha", "zeta"]);
    assert_eq!(branches[0].display_name, "Standalone");
    assert!(config.branches_for("1.21", "forge").is_empty());
}

#[test]
fn branches_need_a_compatible_mod() {
    let config = sample_config();
    assert_eq!(ids(&config.branches_for("1.21", "fabric")), vec!["norisk-stable", "base"]);
    assert_eq!(ids(&config.branches_for("1.21", "neoforge")), vec!["norisk-stable"]);
    assert_eq!(ids(&config.branches_for("1.20.4", "fabric")), vec!["norisk-stable", "base"]);
}

#[test]
fn compatible_looks_at_version_then_loader() {
    let m = entry("m", modrinth("m"), &[("1.21", "fabric", "1")]);
    assert!(compatible(&m, "1.21", "fabric"));
    assert!(!compatible(&m, "1.21", "forge"));
    assert!(!compatible(&m, "1.20", "fabric"));
}

#[test]
fn modrinth_download() {
    let config = sample_config();
    let m = entry("sodium", modrinth("sodium"), &[]);
    let d = config.download_for(&m, &target("0.6", None)).ok().unwrap();
    assert_eq!(d.filename, "sodium-0.6.jar");
    assert_eq!(d.url, "https://api.modrinth.com/maven/maven/modrinth/sodium/0.6/sodium-0.6.jar");
    let named = config.download_for(&m, &target("0.6", Some("Sodium.jar"))).ok().unwrap();
    assert_eq!(named.filename, "Sodium.jar");
    assert_eq!(named.url, "https://api.modrinth.com/maven/maven/modrinth/sodium/0.6/Sodium.jar");
}

fn maven_source(repo: Option<&str>, group: Option<&str>, artifact: Option<&str>) -> ModSource {
    ModSource {
        kind: s("maven"),
        project_slug: None,
        repository_ref: repo.map(s),
        group_id: group.map(s),
        artifact_id: artifact.map(s),
    }
}

fn download_error(config: &PackConfig, m: &ModEntry, t: &CompatibilityTarget) -> String {
    match config.download_for(m, t) {
        Err(e) => e.message(),
        Ok(d) => panic!("unexpected download {}", d.url),
    }
}

#[test]
fn maven_download() {
    let config = sample_config();
    let m = entry("nrc", maven_source(Some("norisk"), Some("gg.norisk"), Some("nrc-client")), &[]);
    let d = config.download_for(&m, &target("1.0+fabric", None)).ok().unwrap();
    assert_eq!(d.filename, "nrc-client-1.0+fabric.jar");
    assert_eq!(
        d.url,
        "https://maven.norisk.gg/repository/norisk-production/gg/norisk/nrc-client/1.0+fabric/nrc-client-1.0+fabric.jar"
    );
}

#[test]
fn build_source_overrides_mod_source() {
    let config = sample_config();
    let m = entry("x", modrinth("x"), &[]);
    let t = CompatibilityTarget {
        identifier: s("https://cdn/x.jar"),
        filename: Some(s("x.jar")),
        source: Some(ModSource { kind: s("url"), project_slug: None, repository_ref: None, group_id: None, artifact_id: None }),
    };
    let d = config.download_for(&m, &t).ok().unwrap();
    assert_eq!(d.url, "https://cdn/x.jar");
    assert_eq!(d.filename, "x.jar");
}

#[test]
fn download_errors() {
    let config = sample_config();
    let no_slug = entry("a", ModSource { kind: s("modrinth"), project_slug: None, repository_ref: None, group_id: None, artifact_id: None }, &[]);
    assert_eq!(download_error(&config, &no_slug, &target("1", None)), "Mod 'a' is missing projectSlug");
    let no_repo = entry("b", maven_source(None, Some("g"), Some("x")), &[]);
    assert_eq!(download_error(&config, &no_repo, &target("1", None)), "Mod 'b' is missing repositoryRef");
    let bad_repo = entry("c", maven_source(Some("elsewhere"), Some("g"), Some("x")), &[]);
    assert_eq!(download_error(&config, &bad_repo, &target("1", None)), "Unknown repository 'elsewhere' for c");
    let no_group = entry("d", maven_source(Some("norisk"), None, Some("x")), &[]);
    assert_eq!(download_error(&config, &no_group, &target("1", None)), "Mod 'd' is missing groupId");
    let no_artifact = entry("e", maven_source(Some("norisk"), Some("g"), None), &[]);
    assert_eq!(download_error(&config, &no_artifact, &target("1", None)), "Mod 'e' is missing artifactId");
    let url = entry("f", ModSource { kind: s("url"), project_slug: None, repository_ref: None, group_id: None, artifact_id: None }, &[]);
    assert_eq!(download_error(&config, &url, &target("https://x", None)), "Direct URL mod 'f' has no filename");
    let odd = entry("g", ModSource { kind: s("curseforge"), project_slug: None, repository_ref: None, group_id: None, artifact_id: None }, &[]);
    assert_eq!(download_error(&config, &odd, &target("1", None)), "Unsupported source type 'curseforge' for g");
}

#[test]
fn filename_validation() {
    assert!(validate_filename("sodium-0.6.jar", Platform::Unix).is_ok());
    assert!(validate_filename("Sodium.JAR", Platform::Unix).is_ok());
    assert!(validate_filename(".jar", Platform::Unix).is_ok());
    assert!(validate_filename("sodium.zip", Platform::Unix).is_err());
    assert!(validate_filename("../evil.jar", Platform::Unix).is_err());
    assert!(validate_filename("dir/evil.jar", Platform::Unix).is_err());
    assert!(validate_filename("/abs.jar", Platform::Unix).is_err());
    assert!(validate_filename("a\\b.jar", Platform::Unix).is_ok());
    assert!(validate_filename("ab:c.jar", Platform::Unix).is_ok());
    assert!(validate_filename("x.jar/", Platform::Unix).is_err());
    assert!(validate_filename("", Platform::Unix).is_err());
    match validate_filename("x.txt", Platform::Unix) {
        Err(e) => assert_eq!(e.message(), "Unsafe mod filename 'x.txt'"),
        Ok(()) => panic!("accepted"),
    }
}

#[test]
fn plans_sorted_downloads() {
    let config = sample_config();
    let plan = config.plan_install("norisk-stable", "1.21", "fabric", Platform::Unix).ok().unwrap();
    let names: Vec<&str> = plan.iter().map(|d| d.filename.as_str()).collect();
    assert_eq!(names, vec!["nrc-1.0.jar", "sodium-0.6.jar"]);
}

fn plan_error(config: &PackConfig, branch: &str, version: &str, loader: &str) -> String {
    match config.plan_install(branch, version, loader, Platform::Unix) {
        Err(e) => e.message(),
        Ok(p) => panic!("planned {} downloads", p.len()),
    }
}

#[test]
fn plan_errors() {
    let config = sample_config();
    assert_eq!(plan_error(&config, "norisk-stable", "1.19", "fabric"), "The selected branch has no compatible mods");
    assert_eq!(plan_error(&config, "missing", "1.21", "fabric"), "Unknown NoRisk branch: missing");
    let twice = |id: &str| {
        let mut m = entry(id, modrinth(id), &[("1.21", "fabric", "1")]);
        m.compatibility[0].1[0].1.filename = Some(s("same.jar"));
        m
    };
    let dup = PackConfig::new(vec![(s("p"), pack("P", None, None, vec![twice("a"), twice("b")], ""))], vec![]).unwrap();
    assert_eq!(plan_error(&dup, "p", "1.21", "fabric"), "The pack contains duplicate filename 'same.jar'");
    let mut bad = entry("bad", modrinth("bad"), &[("1.21", "fabric", "1")]);
    bad.compatibility[0].1[0].1.filename = Some(s("../bad.jar"));
    let unsafe_config = PackConfig::new(vec![(s("p"), pack("P", None, None, vec![bad], ""))], vec![]).unwrap();
    assert_eq!(plan_error(&unsafe_config, "p", "1.21", "fabric"), "Unsafe mod filename '../bad.jar'");
    let broken = entry("broken", ModSource { kind: s("ftp"), project_slug: None, repository_ref: None, group_id: None, artifact_id: None }, &[("1.21", "fabric", "1")]);
    let broken_config = PackConfig::new(vec![(s("p"), pack("P", None, None, vec![broken], ""))], vec![]).unwrap();
    assert_eq!(plan_error(&broken_config, "p", "1.21", "fabric"), "Unsupported source type 'ftp' for broken");
}

fn download(name: &str) -> Download {
    Download { url: format!("https://x/{name}"), filename: s(name) }
}

#[test]
fn removes_only_stale_safe_files() {
    let old = vec![s("a.jar"), s("b.jar"), s("../c.jar"), s("d.txt"), s("e.jar")];
    let new = vec![download("b.jar"), download("z.jar")];
    assert_eq!(files_to_remove(&old, &new, Platform::Unix), vec![s("a.jar"), s("e.jar")]);
}

#[test]
fn state_after_install_lists_files() {
    let state = InstalledPack::after_install("norisk-stable", "1.21", "fabric", &vec![download("a.jar"), download("b.jar")]);
    assert_eq!(state.branch, "norisk-stable");
    assert_eq!(state.game_version, "1.21");
    assert_eq!(state.loader, "fabric");
    assert_eq!(state.files, vec![s("a.jar"), s("b.jar")]);
}

#[test]
fn detects_install_from_files() {
    let config = sample_config();
    let existing = vec![s("sodium-0.6.jar"), s("nrc-1.0.jar"), s("other.jar")];
    let found = config.detect_from_files(&existing).unwrap();
    assert_eq!(found.branch, "norisk-stable");
    assert_eq!(found.game_version, "1.21");
    assert_eq!(found.loader, "fabric");
    assert_eq!(found.files, vec![s("sodium-0.6.jar"), s("nrc-1.0.jar")]);
    let only_base = vec![s("sodium-0.5.jar")];
    let base = config.detect_from_files(&only_base).unwrap();
    assert_eq!(base.branch, "base");
    assert_eq!(base.game_version, "1.20.4");
    assert!(config.detect_from_files(&vec![s("unrelated.jar")]).is_none());
}

#[test]
fn detect_install_prefers_state_with_branch() {
    let config = sample_config();
    let state = InstalledPack { branch: s("base"), game_version: s("1.21"), loader: s("fabric"), files: vec![s("x.jar")] };
    let found = config.detect_install(Some(state), Some(&vec![s("sodium-0.6.jar"), s("nrc-1.0.jar")])).unwrap();
    assert_eq!(found.branch, "base");
    let anonymous = InstalledPack { branch: s(""), game_version: s(""), loader: s(""), files: vec![s("x.jar")] };
    let found = config.detect_install(Some(anonymous.clone()), Some(&vec![s("sodium-0.6.jar"), s("nrc-1.0.jar")])).unwrap();
    assert_eq!(found.branch, "norisk-stable");
    let kept = config.detect_install(Some(anonymous), None).unwrap();
    assert_eq!(kept.files, vec![s("x.jar")]);
    let empty = InstalledPack { branch: s("base"), game_version: s(""), loader: s(""), files: vec![] };
    assert!(config.detect_install(Some(empty), Some(&vec![s("nothing.jar")])).is_none());
    assert!(config.detect_install(None, None).is_none());
}

#[test]
fn error_messages() {
    assert_eq!(PackError::MissingField { mod_id: s("m"), field: SourceField::GroupId }.message(), "Mod 'm' is missing groupId");
    assert_eq!(PackError::DuplicateFilename(s("f.jar")).message(), "The pack contains duplicate filename 'f.jar'");
    assert_eq!(PackError::NoCompatibleMods.message(), "The selected branch has no compatible mods");
}

#[test]
fn pack_inheriting_from_itself_never_resolves() {
    let a = pack("A", Some(&["a"]), None, vec![entry("m", modrinth("m"), &[("1.21", "fabric", "1")])], "");
    let config = PackConfig::new(vec![(s("a"), a)], vec![]).unwrap();
    assert!(config.resolve_mods("a").is_err());
    assert!(config.game_versions().is_empty());
    assert!(config.branches_for("1.21", "fabric").is_empty());
}

#[test]
fn recognises_jar_header() {
    assert!(has_jar_header(b"PK\x03\x04"));
    assert!(has_jar_header(b"PK"));
    assert!(!has_jar_header(b"P"));
    assert!(!has_jar_header(b""));
    assert!(!has_jar_header(b"<html>"));
    assert!(!has_jar_header(b"pk\x03\x04"));
}

#[test]
fn later_parent_and_last_own_entry_win() {
    let first = pack("First", None, None, vec![entry("a", modrinth("a1"), &[]), entry("b", modrinth("b1"), &[])], "");
    let second = pack("Second", None, None, vec![entry("a", modrinth("a2"), &[]), entry("d", modrinth("d2"), &[])], "");
    let child = pack(
        "Child",
        Some(&["first", "second"]),
        Some(&["d"]),
        vec![entry("b", modrinth("b3"), &[]), entry("b", modrinth("b4"), &[])],
        "",
    );
    let config = PackConfig::new(
        vec![(s("first"), first), (s("second"), second), (s("child"), child)],
        vec![],
    )
    .unwrap();
    let mods = config.resolve_mods("child").ok().unwrap();
    let found: Vec<(&str, Option<&str>)> =
        mods.iter().map(|m| (m.id.as_str(), m.source.project_slug.as_deref())).collect();
    assert_eq!(found, vec![("a", Some("a2")), ("b", Some("b4"))]);
}

#[test]
fn names_with_backslash_or_colon_are_plain_file_names() {
    let twice = |id: &str| {
        let mut m = entry(id, modrinth(id), &[("1.21", "fabric", "1")]);
        m.compatibility[0].1[0].1.filename = Some(s("ab:c.jar"));
        m
    };
    let dup = PackConfig::new(vec![(s("p"), pack("P", None, None, vec![twice("a"), twice("b")], ""))], vec![]).unwrap();
    assert_eq!(plan_error(&dup, "p", "1.21", "fabric"), "The pack contains duplicate filename 'ab:c.jar'");
    let old = vec![s("ab:c.jar"), s("a\\b.jar")];
    assert_eq!(files_to_remove(&old, &vec![], Platform::Unix), vec![s("ab:c.jar"), s("a\\b.jar")]);
}

#[test]
fn windows_file_names_are_one_component() {
    let w = Platform::Windows;
    assert!(validate_filename("sodium-0.6.jar", w).is_ok());
    assert!(validate_filename("ab:c.jar", w).is_ok());
    assert!(validate_filename("a\\b.jar", w).is_err());
    assert!(validate_filename("..\\evil.jar", w).is_err());
    assert!(validate_filename("C:\\Windows\\evil.jar", w).is_err());
    assert!(validate_filename("C:evil.jar", w).is_err());
    assert!(validate_filename("\\\\?\\C:\\x.jar", w).is_err());
    assert!(validate_filename("dir/evil.jar", w).is_err());
    let old = vec![s("..\\evil.jar"), s("ok.jar"), s("C:x.jar")];
    assert_eq!(files_to_remove(&old, &vec![], w), vec![s("ok.jar")]);
    let mut bad = entry("bad", modrinth("bad"), &[("1.21", "fabric", "1")]);
    bad.compatibility[0].1[0].1.filename = Some(s("..\\bad.jar"));
    let config = PackConfig::new(vec![(s("p"), pack("P", None, None, vec![bad], ""))], vec![]).unwrap();
    match config.plan_install("p", "1.21", "fabric", w) {
        Err(e) => assert_eq!(e.message(), "Unsafe mod filename '..\\bad.jar'"),
        Ok(_) => panic!("an unsafe name was planned"),
    }
    assert!(config.plan_install("p", "1.21", "fabric", Platform::Unix).is_ok());
}
