use ssmt4_core::codec::{decode, encode_disabled};
use ssmt4_core::ini::IniManager;
use ssmt4_core::launcher::{apply_launch_settings, apply_symlink_setting, i32_dec, LaunchSettings};
use ssmt4_core::ops::toggle_plan;

#[test]
fn encode_disabled_marks_name() {
    assert_eq!(encode_disabled("Ayaka"), "DISABLED_Ayaka");
    assert_eq!(encode_disabled("DISABLED_Ayaka"), "DISABLED_Ayaka");
}

#[test]
fn decode_of_encoded_is_disabled() {
    let (name, enabled) = decode(&encode_disabled("Skin1"));
    assert_eq!(name, "Skin1");
    assert!(!enabled);
    // encoding twice changes nothing further
    let twice = encode_disabled(&encode_disabled("Skin1"));
    assert_eq!(decode(&twice), decode(&encode_disabled("Skin1")));
}

#[test]
fn decode_plain_name_is_enabled() {
    let (name, enabled) = decode("Raiden");
    assert_eq!(name, "Raiden");
    assert!(enabled);
}

#[test]
fn decode_strips_repeated_markers() {
    // a display name never carries the marker, however often it was stacked
    let (name, enabled) = decode("DISABLED_DISABLED_X");
    assert_eq!(name, "X");
    assert!(!enabled);
    let plan = ssmt4_core::ops::toggle_plan("DISABLED_DISABLED_X", true);
    assert_eq!(plan.new_name, "X");
}

#[test]
fn toggle_twice_round_trips() {
    // enabled -> disabled -> enabled
    let off = toggle_plan("MyMod", false);
    assert_eq!(off.new_name, "DISABLED_MyMod");
    assert!(off.changed);
    let on = toggle_plan(&off.new_name, true);
    assert_eq!(on.new_name, "MyMod");
    // disabled -> enabled -> disabled
    let on2 = toggle_plan("DISABLED_Old", true);
    assert_eq!(on2.new_name, "Old");
    let off2 = toggle_plan(&on2.new_name, false);
    assert_eq!(off2.new_name, "DISABLED_Old");
}

#[test]
fn toggle_noop_keeps_name() {
    let p = toggle_plan("Active", true);
    assert_eq!(p.new_name, "Active");
    assert!(!p.changed);
    let q = toggle_plan("DISABLED_Inactive", false);
    assert_eq!(q.new_name, "DISABLED_Inactive");
    assert!(!q.changed);
}

#[test]
fn upsert_replaces_value_and_is_idempotent() {
    let mut ini = IniManager::new(
        String::from("d3dx.ini"),
        String::from("[Loader]\ntarget=old\n"),
    );
    ini.set("Loader", "target", "C:/Game.exe");
    assert_eq!(ini.content, "[Loader]\ntarget = C:/Game.exe\n");
    let first = ini.content.clone();
    ini.set("Loader", "target", "C:/Game.exe");
    assert_eq!(ini.content, first);
}

#[test]
fn upsert_preserves_unrelated_lines() {
    let doc = "; comment\n[Other]\nkey=1\n[Loader]\ntarget=old\nextra = keep\n";
    let mut ini = IniManager::new(String::from("x.ini"), String::from(doc));
    ini.set("Loader", "target", "new");
    assert_eq!(
        ini.content,
        "; comment\n[Other]\nkey=1\n[Loader]\ntarget = new\nextra = keep\n"
    );
}

#[test]
fn upsert_inserts_missing_key_before_next_section() {
    let doc = "[Loader]\ntarget=t\n[Logging]\nlevel=1\n";
    let mut ini = IniManager::new(String::from("x.ini"), String::from(doc));
    ini.set("Loader", "launch", "L.exe");
    assert_eq!(
        ini.content,
        "[Loader]\ntarget=t\nlaunch = L.exe\n[Logging]\nlevel=1\n"
    );
}

#[test]
fn upsert_appends_missing_section() {
    let doc = "[Loader]\ntarget=t";
    let mut ini = IniManager::new(String::from("x.ini"), String::from(doc));
    ini.set("Hunting", "hunting", "2");
    assert_eq!(ini.content, "[Loader]\ntarget=t\n\n[Hunting]\nhunting = 2");
}

#[test]
fn upsert_matches_section_and_key_case_insensitively() {
    let doc = "[LOADER]\nTarget=old\n";
    let mut ini = IniManager::new(String::from("x.ini"), String::from(doc));
    ini.set("loader", "target", "v");
    assert_eq!(ini.content, "[LOADER]\nTarget = v\n");
}

#[test]
fn remove_key_deletes_line() {
    let doc = "[Loader]\nlaunch=L\ntarget=t\n";
    let mut ini = IniManager::new(String::from("x.ini"), String::from(doc));
    ini.remove_key("Loader", "launch");
    assert_eq!(ini.content, "[Loader]\ntarget=t\n");
}

#[test]
fn remove_key_deletes_every_match() {
    // duplicate key lines in the section all go, matched case-insensitively
    let doc = "[S]\nk=1\nother=x\nK = 2\n";
    let mut ini = IniManager::new(String::from("x.ini"), String::from(doc));
    ini.remove_key("s", "k");
    assert_eq!(ini.content, "[S]\nother=x\n");
}

#[test]
fn remove_missing_section_is_noop() {
    let doc = "[Logging]\nlevel=1\r\nodd line\n";
    let mut ini = IniManager::new(String::from("x.ini"), String::from(doc));
    ini.remove_key("Loader", "launch");
    // byte-identical: the text is not even rewritten
    assert_eq!(ini.content, doc);
}

#[test]
fn remove_missing_key_is_noop() {
    let doc = "[Loader]\ntarget=t\n";
    let mut ini = IniManager::new(String::from("x.ini"), String::from(doc));
    ini.remove_key("Loader", "launch");
    assert_eq!(ini.content, doc);
}

#[test]
fn i32_dec_renders_decimal() {
    assert_eq!(i32_dec(0), "0");
    assert_eq!(i32_dec(42), "42");
    assert_eq!(i32_dec(-7), "-7");
    assert_eq!(i32_dec(2147483647), "2147483647");
    assert_eq!(i32_dec(-2147483648), "-2147483648");
}

#[test]
fn launch_settings_projection() {
    let doc = "[Loader]\ntarget=old\nlaunch=bad\n[Logging]\nshow_warnings=1\n";
    let mut ini = IniManager::new(String::from("d3dx.ini"), String::from(doc));
    let s = LaunchSettings {
        target_exe_path: Some(String::from("C:/Game.exe")),
        launcher_exe_path: None,
        launch_args: None,
        use_shell: true,
        show_error_popup: false,
        auto_set_analyse_options: false,
        delay: Some(3),
        extra_dll: None,
        auto_exit_seconds: None,
        use_upx: false,
    };
    apply_launch_settings(&mut ini, &s);
    let out = &ini.content;
    assert!(out.contains("target = C:/Game.exe"));
    // shell mode removes the launch keys
    assert!(!out.contains("launch=bad"));
    assert!(out.contains("show_warnings = 0"));
    assert!(out.contains("[System]"));
    assert!(out.contains("dll_initialization_delay = 3"));
    assert!(out.contains("hunting = 2"));
    assert!(out.contains("marking_actions = clipboard asm hlsl"));
}

#[test]
fn symlink_setting_sets_analyse_options() {
    let doc = "[hunting]\nanalyse_options=x\n";
    let mut ini = IniManager::new(String::from("d3dx.ini"), String::from(doc));
    apply_symlink_setting(&mut ini, true);
    assert!(ini.content.ends_with("symlink\n"));
    apply_symlink_setting(&mut ini, false);
    assert!(ini.content.ends_with("dump_tex dds\n"));
}
