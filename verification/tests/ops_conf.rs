use ssmt4_core::errors::LibError;
use ssmt4_core::gameconf::{
    background_candidates, background_file_name, default_bg_type, game_id, github_release_url,
    greet, hyp_api_url, normalize_path, pick_zip_asset, release_repo, set_visibility,
    sidebar_visible, BasicSettings, GameIconSetting,
};
use ssmt4_core::launcher::{is_matching_process, resolve_migoto_path};
use ssmt4_core::ops::{
    create_group_check, delete_group_check, install_dest_check, install_dest_rel, move_mod_check,
    move_mod_plan, rename_group_check, resolve_target_group, toggle_check,
};

#[test]
fn group_checks() {
    assert_eq!(toggle_check(true), Ok(()));
    assert_eq!(toggle_check(false), Err(LibError::NotFound));
    assert_eq!(create_group_check(false), Ok(()));
    assert_eq!(create_group_check(true), Err(LibError::AlreadyExists));
    assert_eq!(rename_group_check(true, false), Ok(()));
    assert_eq!(rename_group_check(false, false), Err(LibError::NotFound));
    assert_eq!(rename_group_check(true, true), Err(LibError::AlreadyExists));
    assert_eq!(delete_group_check(true), Ok(()));
    assert_eq!(delete_group_check(false), Err(LibError::NotFound));
}

#[test]
fn move_plan_resolves_group_and_name() {
    let p = move_mod_plan("Raiden/RaidenMod1", "Ayaka").unwrap();
    assert_eq!(p.mod_name, "RaidenMod1");
    assert_eq!(p.target_group, "Ayaka");
    assert_eq!(p.dest_rel, "Ayaka/RaidenMod1");
    // the root sentinel and the empty group fall back to the default group
    let q = move_mod_plan("Solo", "Root").unwrap();
    assert_eq!(q.dest_rel, "Default/Solo");
    let r = move_mod_plan("Solo", "").unwrap();
    assert_eq!(r.dest_rel, "Default/Solo");
    assert!(matches!(move_mod_plan("", "G"), Err(LibError::NotFound)));
}

#[test]
fn move_checks() {
    assert_eq!(move_mod_check(true, false), Ok(()));
    assert_eq!(move_mod_check(false, false), Err(LibError::NotFound));
    assert_eq!(move_mod_check(true, true), Err(LibError::AlreadyExists));
}

#[test]
fn install_destination() {
    assert_eq!(install_dest_rel("Root", "NewMod"), "Default/NewMod");
    assert_eq!(install_dest_rel("Ayaka", "NewMod"), "Ayaka/NewMod");
    assert_eq!(install_dest_check(false), Ok(()));
    // a leftover from a failed install forces an explicit cleanup
    assert_eq!(install_dest_check(true), Err(LibError::AlreadyExists));
}

#[test]
fn target_group_resolution() {
    assert_eq!(resolve_target_group("Root"), "Default");
    assert_eq!(resolve_target_group(""), "Default");
    assert_eq!(resolve_target_group("Ayaka"), "Ayaka");
}

#[test]
fn defaults() {
    assert_eq!(default_bg_type(), "image");
    let b = BasicSettings::default();
    assert_eq!(b.game_preset, "Default");
    assert_eq!(b.background_type, "image");
}

#[test]
fn path_normalization() {
    assert_eq!(normalize_path("\\\\?\\C:\\Games\\Mod"), "C:/Games/Mod");
    assert_eq!(normalize_path("C:\\Games\\Mod"), "C:/Games/Mod");
    assert_eq!(normalize_path("/home/user/mods"), "/home/user/mods");
}

#[test]
fn preset_tables() {
    assert_eq!(release_repo("GIMI").unwrap(), "SilentNightSound/GIMI-Package");
    assert_eq!(release_repo("WWMI").unwrap(), "SpectrumQT/WWMI-Package");
    assert_eq!(release_repo("nope"), Err(LibError::NotFound));
    assert_eq!(game_id("ZZMI").unwrap(), "x6znKlJ0xK");
    assert_eq!(game_id("WWMI"), Err(LibError::NotFound));
}

#[test]
fn service_urls() {
    assert_eq!(
        github_release_url("leotorrez/ZZMI-Package"),
        "https://api.github.com/repos/leotorrez/ZZMI-Package/releases/latest"
    );
    assert_eq!(
        hyp_api_url("1Z8W5NHUQb"),
        "https://hyp-api.mihoyo.com/hyp/hyp-connect/api/getAllGameBasicInfo?launcher_id=jGHBHlcOq1&language=zh-cn&game_id=1Z8W5NHUQb"
    );
}

#[test]
fn asset_selection_prefers_zip() {
    let names = vec![
        String::from("readme.md"),
        String::from("pack.zip"),
        String::from("other.zip"),
    ];
    assert_eq!(pick_zip_asset(&names), Some(1));
    let no_zip = vec![String::from("a.tar"), String::from("b.gz")];
    assert_eq!(pick_zip_asset(&no_zip), Some(0));
    assert_eq!(pick_zip_asset(&Vec::new()), None);
}

#[test]
fn background_handling() {
    let img = background_candidates("image").unwrap();
    assert_eq!(
        img,
        vec![
            String::from("Background.png"),
            String::from("Background.webp"),
            String::from("Background.jpg"),
            String::from("Background.jpeg"),
        ]
    );
    let vid = background_candidates("video").unwrap();
    assert_eq!(vid.len(), 3);
    assert_eq!(
        background_candidates("weird"),
        Err(LibError::UnsupportedFormat)
    );
    assert_eq!(background_file_name("png"), "Background.png");
}

#[test]
fn visibility_upsert() {
    let list = vec![GameIconSetting {
        game_name: String::from("Genshin"),
        show: false,
    }];
    let updated = set_visibility(&list, "Genshin", true);
    assert_eq!(updated.len(), 1);
    assert!(updated[0].show);
    let appended = set_visibility(&updated, "Star Rail", true);
    assert_eq!(appended.len(), 2);
    assert_eq!(appended[1].game_name, "Star Rail");
    assert!(appended[1].show);
    assert!(sidebar_visible(&Some(true)));
    assert!(!sidebar_visible(&None));
}

#[test]
fn greeting() {
    assert_eq!(greet("Tester"), "Hello, Tester! You've been greeted from Rust!");
}

#[test]
fn migoto_path_resolution() {
    assert_eq!(
        resolve_migoto_path(&Some(String::from("D:/migoto")), "", "G1").unwrap(),
        "D:/migoto"
    );
    // a blank configured directory falls back to the cache
    assert_eq!(
        resolve_migoto_path(&Some(String::from("   ")), "C:/cache", "G1").unwrap(),
        "C:/cache/3Dmigoto/G1"
    );
    assert_eq!(
        resolve_migoto_path(&None, "C:/cache", "G1").unwrap(),
        "C:/cache/3Dmigoto/G1"
    );
    assert_eq!(
        resolve_migoto_path(&None, "", "G1"),
        Err(LibError::NotFound)
    );
}

#[test]
fn loader_process_match() {
    assert!(is_matching_process("run.exe", &None, "c:/m/run.exe"));
    assert!(is_matching_process(
        "run.exe",
        &Some(String::from("c:/m/run.exe")),
        "c:/m/run.exe"
    ));
    assert!(!is_matching_process(
        "run.exe",
        &Some(String::from("c:/other/run.exe")),
        "c:/m/run.exe"
    ));
    assert!(!is_matching_process("game.exe", &None, "c:/m/run.exe"));
}

#[test]
fn error_messages() {
    assert_eq!(LibError::NotFound.message(), "not found");
    assert_eq!(LibError::AlreadyExists.message(), "already exists");
    assert_eq!(
        LibError::ExternalToolMissing.message(),
        "external extraction tool missing"
    );
    assert_eq!(LibError::Io.message(), "input/output failure");
    assert_eq!(
        LibError::Security.message(),
        "archive entry escapes the destination"
    );
}
