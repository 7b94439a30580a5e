use nrctool::paths::{path_parts_exec, same_folder, Platform};
use nrctool::profiles::{
    add_custom_profile, configured_name, instance_name, launcher_profiles, mods_folder_of,
    official_default_profile, official_profile, official_profiles, order_profiles, prism_profile,
    simple_profile, GameProfile,
};

fn profile(name: &str, launcher: &str, folder: &str) -> GameProfile {
    GameProfile { name: name.to_string(), launcher: launcher.to_string(), mods_folder: folder.to_string() }
}

#[test]
fn label_joins_launcher_and_name() {
    assert_eq!(profile("Survival", "Prism Launcher", "/m").label(), "Prism Launcher \u{b7} Survival");
}

#[test]
fn profiles_sorted_and_folder_repeats_dropped() {
    let input = vec![
        profile("b", "Prism", "/p/b"),
        profile("a", "Prism", "/p/a"),
        profile("Default profile", "Minecraft Launcher", "/mc/mods"),
        profile("Custom", "Minecraft Launcher", "/mc/mods"),
        profile("z", "ATLauncher", "/at/z"),
    ];
    let out = order_profiles(input, Platform::Unix);
    let labels: Vec<String> = out.iter().map(|p| p.label()).collect();
    assert_eq!(
        labels,
        vec![
            "ATLauncher \u{b7} z".to_string(),
            "Minecraft Launcher \u{b7} Custom".to_string(),
            "Prism \u{b7} a".to_string(),
            "Prism \u{b7} b".to_string(),
        ]
    );
}

#[test]
fn configured_name_reads_first_name_line() {
    assert_eq!(configured_name("InstanceType=OneSix\nname=My Pack\nname=Other\n"), Some("My Pack".to_string()));
    assert_eq!(configured_name("name=Windows\r\nx=1"), Some("Windows".to_string()));
    assert_eq!(configured_name("name=Trailing\r"), Some("Trailing\r".to_string()));
    assert_eq!(configured_name("name="), Some(String::new()));
    assert_eq!(configured_name(" name=x\nnam=y"), None);
    assert_eq!(configured_name(""), None);
}

#[test]
fn instance_name_falls_back() {
    assert_eq!(instance_name(Some("name=Cfg"), Some("folder")), "Cfg");
    assert_eq!(instance_name(Some("other=1"), Some("folder")), "folder");
    assert_eq!(instance_name(None, Some("folder")), "folder");
    assert_eq!(instance_name(None, None), "Unnamed profile");
}

#[test]
fn official_launcher_profiles() {
    let d = official_default_profile("/mc/mods".to_string());
    assert_eq!(d.name, "Default profile");
    assert_eq!(d.launcher, "Minecraft Launcher");
    assert_eq!(official_profile(Some("Fabric"), "/g/mods".to_string()).name, "Fabric");
    assert_eq!(official_profile(Some(""), "/g/mods".to_string()).name, "Custom profile");
    assert_eq!(official_profile(None, "/g/mods".to_string()).name, "Custom profile");
}

#[test]
fn instance_profiles_need_their_markers() {
    assert!(prism_profile("MultiMC", false, false, "x".to_string(), "/x/mods".to_string()).is_none());
    let p = prism_profile("MultiMC", false, true, "x".to_string(), "/x/mods".to_string()).unwrap();
    assert_eq!(p.launcher, "MultiMC");
    assert!(simple_profile("CurseForge", Some(false), "x".to_string(), "/x".to_string()).is_none());
    assert!(simple_profile("CurseForge", Some(true), "x".to_string(), "/x".to_string()).is_some());
    assert_eq!(simple_profile("Modrinth App", None, "x".to_string(), "/x".to_string()).unwrap().mods_folder, "/x");
}

#[test]
fn custom_profile_selected_or_added() {
    let mut profiles = vec![profile("a", "Prism", "/a"), profile("b", "Prism", "/b")];
    assert_eq!(add_custom_profile(&mut profiles, "/b".to_string(), "ignored".to_string(), Platform::Unix), 1);
    assert_eq!(profiles.len(), 2);
    assert_eq!(add_custom_profile(&mut profiles, "/c/mods".to_string(), "c".to_string(), Platform::Unix), 2);
    assert_eq!(profiles[2].launcher, "Custom");
    assert_eq!(profiles[2].name, "c");
}

#[test]
fn folders_compare_as_paths() {
    assert!(same_folder("/a//b", "/a/b", Platform::Unix));
    assert!(same_folder("/a/./b/", "/a/b", Platform::Unix));
    assert!(same_folder("a/b", "a/b/.", Platform::Unix));
    assert!(!same_folder("/a/b", "a/b", Platform::Unix));
    assert!(!same_folder("./a", "a", Platform::Unix));
    assert!(same_folder("./a", ".//a", Platform::Unix));
    assert!(!same_folder("/a/b", "/a/c", Platform::Unix));
    assert!(!same_folder("/a/../b", "/b", Platform::Unix));
    assert_eq!(path_parts_exec("/x//./y/z/", Platform::Unix), vec!["x".to_string(), "y".to_string(), "z".to_string()]);
    assert!(path_parts_exec("", Platform::Unix).is_empty());
}

#[test]
fn folder_repeats_are_judged_as_paths() {
    let input = vec![
        profile("a", "Prism", "/p//x/mods"),
        profile("b", "Prism", "/p/x/./mods/"),
        profile("c", "Prism", "/p/y/mods"),
    ];
    let out = order_profiles(input, Platform::Unix);
    let names: Vec<&str> = out.iter().map(|p| p.name.as_str()).collect();
    assert_eq!(names, vec!["a", "c"]);
    let mut profiles = out;
    assert_eq!(add_custom_profile(&mut profiles, "/p/x/mods".to_string(), "ignored".to_string(), Platform::Unix), 0);
    assert_eq!(profiles.len(), 2);
}

#[test]
fn mods_folder_joins_like_paths() {
    assert_eq!(mods_folder_of("/games/mc", Platform::Unix), "/games/mc/mods");
    assert_eq!(mods_folder_of("/games/mc/", Platform::Unix), "/games/mc/mods");
    assert_eq!(mods_folder_of("", Platform::Unix), "mods");
}

#[test]
fn official_profiles_keep_entries_with_a_game_folder() {
    let entries = vec![
        (Some("Fabric".to_string()), Some("/g/fabric".to_string())),
        (Some("No folder".to_string()), None),
        (Some("".to_string()), Some("/g/empty/".to_string())),
        (None, Some("rel".to_string())),
    ];
    let out = official_profiles(&entries, Platform::Unix);
    let seen: Vec<(&str, &str, &str)> = out
        .iter()
        .map(|p| (p.name.as_str(), p.launcher.as_str(), p.mods_folder.as_str()))
        .collect();
    assert_eq!(
        seen,
        vec![
            ("Fabric", "Minecraft Launcher", "/g/fabric/mods"),
            ("Custom profile", "Minecraft Launcher", "/g/empty/mods"),
            ("Custom profile", "Minecraft Launcher", "rel/mods"),
        ]
    );
}

#[test]
fn launcher_profiles_read_from_json() {
    let data = br#"{"profiles": {"b": {"name": "Second", "gameDir": "/g/two"}, "a": {"name": "First", "gameDir": "/g/one"}, "c": {"name": "Plain"}, "d": {"gameDir": 5}}, "other": 1}"#;
    let out = launcher_profiles(data, Platform::Unix);
    let seen: Vec<(&str, &str)> = out.iter().map(|p| (p.name.as_str(), p.mods_folder.as_str())).collect();
    assert_eq!(seen, vec![("First", "/g/one/mods"), ("Second", "/g/two/mods")]);
    assert!(launcher_profiles(b"not json", Platform::Unix).is_empty());
    assert!(launcher_profiles(br#"{"profiles": []}"#, Platform::Unix).is_empty());
}

#[test]
fn windows_folders_compare_as_paths() {
    let w = Platform::Windows;
    assert!(same_folder("C:\\a\\mods", "C:/a/mods", w));
    assert!(same_folder("c:\\a\\mods", "C:\\a\\.\\mods\\", w));
    assert!(!same_folder("C:\\a\\mods", "D:\\a\\mods", w));
    assert!(!same_folder("C:a\\mods", "C:\\a\\mods", w));
    assert!(!same_folder("\\\\srv\\share", "\\srv\\share", w));
    assert!(!same_folder("C:\\a\\mods", "C:/a/mods", Platform::Unix));
    assert_eq!(path_parts_exec("C:\\x\\\\y", w), vec!["x".to_string(), "y".to_string()]);
    assert_eq!(mods_folder_of("C:\\games\\mc", w), "C:\\games\\mc\\mods");
    assert_eq!(mods_folder_of("C:\\games\\mc\\", w), "C:\\games\\mc\\mods");
    assert_eq!(mods_folder_of("C:", w), "C:mods");
    let input = vec![profile("a", "Prism", "C:\\p\\x\\mods"), profile("b", "Prism", "c:/p/x/mods")];
    assert_eq!(order_profiles(input, w).len(), 1);
}
