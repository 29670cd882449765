use ssmt4_core::catalog::{scan, DirNode};
use ssmt4_core::ini::IniManager;
use ssmt4_core::sorting::{sort_dedup_strings, sort_strings};

fn dir(name: &str, files: &[&str], subdirs: Vec<DirNode>) -> DirNode {
    DirNode {
        name: String::from(name),
        files: files.iter().map(|f| String::from(*f)).collect(),
        subdirs,
    }
}

#[test]
fn scan_finds_leaf_at_depth_two() {
    // Mods/DISABLED_Group/Leaf: the leaf sits two levels below the root
    let root = dir(
        "Mods",
        &[],
        vec![dir(
            "DISABLED_Group",
            &[],
            vec![dir("Leaf", &["mod.ini"], vec![])],
        )],
    );
    let r = scan(&root, "/m");
    assert_eq!(r.mods.len(), 1);
    let m = &r.mods[0];
    assert_eq!(m.id, "DISABLED_Group/Leaf");
    // the group is the top-level ancestor's decoded name
    assert_eq!(m.group, "Group");
    assert_eq!(m.path, "/m/DISABLED_Group/Leaf");
    // both the raw top-level directory name and the decoded group carried by
    // the mod appear in the group list
    assert_eq!(
        r.groups,
        vec![String::from("DISABLED_Group"), String::from("Group")]
    );
}

#[test]
fn scan_stops_below_depth_two() {
    // a leaf three levels below the root is beyond the walk's depth bound
    let root = dir(
        "Mods",
        &[],
        vec![dir(
            "G",
            &[],
            vec![dir("A", &[], vec![dir("TooDeep", &["mod.ini"], vec![])])],
        )],
    );
    let r = scan(&root, "/m");
    assert_eq!(r.mods.len(), 0);
    assert_eq!(r.groups, vec![String::from("G")]);
}

#[test]
fn scan_root_level_leaf() {
    let root = dir("Mods", &[], vec![dir("Solo", &["pic.webp"], vec![])]);
    let r = scan(&root, "/m");
    assert_eq!(r.mods.len(), 1);
    assert_eq!(r.mods[0].id, "Solo");
    assert_eq!(r.mods[0].group, "Root");
    assert!(r.groups.is_empty());
}

#[test]
fn scan_stray_image_makes_container_a_mod() {
    // the classification heuristic: a container holding a stray image is
    // taken for a leaf mod, and its children are never visited
    let root = dir(
        "Mods",
        &[],
        vec![dir(
            "Folder",
            &["cover.jpg"],
            vec![dir("Inner", &["mod.ini"], vec![])],
        )],
    );
    let r = scan(&root, "/m");
    assert_eq!(r.mods.len(), 1);
    assert_eq!(r.mods[0].id, "Folder");
}

#[test]
fn upsert_normalizes_crlf_document() {
    let mut ini = IniManager::new(
        String::from("x.ini"),
        String::from("[Loader]\r\ntarget=old\r\n"),
    );
    ini.set("Loader", "target", "new");
    assert_eq!(ini.content, "[Loader]\ntarget = new\n");
}

#[test]
fn upsert_inserts_at_end_of_last_section() {
    let mut ini = IniManager::new(String::from("x.ini"), String::from("[Loader]\ntarget=t\n"));
    ini.set("Loader", "launch", "L");
    assert_eq!(ini.content, "[Loader]\ntarget=t\nlaunch = L\n");
}

#[test]
fn upsert_ignores_commented_keys() {
    let doc = "[Loader]\n; target=commented\ntarget=real\n";
    let mut ini = IniManager::new(String::from("x.ini"), String::from(doc));
    ini.set("Loader", "target", "v");
    assert_eq!(ini.content, "[Loader]\n; target=commented\ntarget = v\n");
}

#[test]
fn upsert_respects_section_boundaries() {
    // the key exists, but only in another section
    let doc = "[Other]\nlaunch=elsewhere\n[Loader]\ntarget=t\n";
    let mut ini = IniManager::new(String::from("x.ini"), String::from(doc));
    ini.set("Loader", "launch", "L");
    assert_eq!(
        ini.content,
        "[Other]\nlaunch=elsewhere\n[Loader]\ntarget=t\nlaunch = L\n"
    );
}

#[test]
fn header_with_inline_comment_is_recognized() {
    let doc = "[Loader] ; loader settings\ntarget=old\n";
    let mut ini = IniManager::new(String::from("x.ini"), String::from(doc));
    ini.set("Loader", "target", "v");
    assert_eq!(ini.content, "[Loader] ; loader settings\ntarget = v\n");
}

#[test]
fn key_spelling_is_preserved_on_replace() {
    let doc = "[S]\n  TARGET  =old\n";
    let mut ini = IniManager::new(String::from("x.ini"), String::from(doc));
    ini.set("S", "target", "v");
    // the original spelling before `=` is kept, trailing spaces dropped
    assert_eq!(ini.content, "[S]\n  TARGET = v\n");
}

#[test]
fn sorting_orders_and_dedups() {
    let v = vec![
        String::from("pear"),
        String::from("apple"),
        String::from("pear"),
        String::from("fig"),
    ];
    let sorted = sort_strings(&v);
    assert_eq!(
        sorted,
        vec![
            String::from("apple"),
            String::from("fig"),
            String::from("pear"),
            String::from("pear"),
        ]
    );
    let deduped = sort_dedup_strings(&v);
    assert_eq!(
        deduped,
        vec![
            String::from("apple"),
            String::from("fig"),
            String::from("pear"),
        ]
    );
}
