use std::io::Write;

use ssmt4_core::archive::{
    compute_strip_prefix, detect_format, plan_extraction, summarize_entries, staged_strip_decision,
    ArchiveEntry, ArchiveFormat,
};
use ssmt4_core::catalog::{scan, DirNode};
use ssmt4_core::errors::LibError;
use ssmt4_core::readers::{decode_entry_name, zip_archive_from_bytes, zip_entries, zip_read_entry};

fn entry(path: &str, is_dir: bool) -> ArchiveEntry {
    ArchiveEntry { path: String::from(path), is_dir }
}

#[test]
fn detect_format_by_extension() {
    assert_eq!(detect_format("C:/mods/pack.zip"), Ok(ArchiveFormat::Zip));
    assert_eq!(detect_format("/tmp/PACK.ZIP"), Ok(ArchiveFormat::Zip));
    assert_eq!(detect_format("a.7z"), Ok(ArchiveFormat::SevenZ));
    assert_eq!(detect_format("dir.v2/b.rar"), Ok(ArchiveFormat::Rar));
    assert_eq!(detect_format("a.tar"), Err(LibError::UnsupportedFormat));
    assert_eq!(detect_format("noext"), Err(LibError::UnsupportedFormat));
}

#[test]
fn common_root_detection() {
    let shared = vec![
        entry("PackageRoot/", true),
        entry("PackageRoot/a.txt", false),
        entry("PackageRoot/sub/b.txt", false),
        entry("__MACOSX/ignored", false),
    ];
    assert_eq!(compute_strip_prefix(&shared), Some(String::from("PackageRoot")));
    let split = vec![entry("A/x.txt", false), entry("B/y.txt", false)];
    assert_eq!(compute_strip_prefix(&split), None);
    let none: Vec<ArchiveEntry> = Vec::new();
    assert_eq!(compute_strip_prefix(&none), None);
}

#[test]
fn plan_strips_single_root() {
    let es = vec![
        entry("PackageRoot/", true),
        entry("PackageRoot/a.txt", false),
        entry("PackageRoot/sub/", true),
        entry("PackageRoot/sub/b.txt", false),
    ];
    let strip = compute_strip_prefix(&es);
    let plan = plan_extraction(&es, &strip).unwrap();
    let rels: Vec<&str> = plan.iter().map(|a| a.rel.as_str()).collect();
    assert_eq!(rels, vec!["a.txt", "sub/", "sub/b.txt"]);
    assert!(!plan[0].is_dir);
    assert!(plan[1].is_dir);
    assert_eq!(plan[2].index, 3);
}

#[test]
fn plan_preserves_multiple_roots() {
    let es = vec![entry("A/x.txt", false), entry("B/y.txt", false)];
    let strip = compute_strip_prefix(&es);
    assert_eq!(strip, None);
    let plan = plan_extraction(&es, &strip).unwrap();
    let rels: Vec<&str> = plan.iter().map(|a| a.rel.as_str()).collect();
    assert_eq!(rels, vec!["A/x.txt", "B/y.txt"]);
}

#[test]
fn traversal_entry_is_rejected() {
    let es = vec![entry("ok.txt", false), entry("../../evil.txt", false)];
    let strip = None;
    assert!(matches!(
        plan_extraction(&es, &strip),
        Err(LibError::Security)
    ));
}

#[test]
fn traversal_after_stripping_is_rejected() {
    let es = vec![entry("Root/../escape.txt", false), entry("Root/a.txt", false)];
    let strip = Some(String::from("Root"));
    assert!(matches!(
        plan_extraction(&es, &strip),
        Err(LibError::Security)
    ));
}

#[test]
fn rooted_and_drive_paths_are_rejected() {
    let abs_path = vec![entry("/etc/evil", false)];
    assert!(matches!(plan_extraction(&abs_path, &None), Err(LibError::Security)));
    let backslash = vec![entry("..\\evil.txt", false)];
    assert!(matches!(plan_extraction(&backslash, &None), Err(LibError::Security)));
    let drive = vec![entry("C:/evil.txt", false)];
    assert!(matches!(plan_extraction(&drive, &None), Err(LibError::Security)));
    let unc = vec![entry("\\\\server\\share", false)];
    assert!(matches!(plan_extraction(&unc, &None), Err(LibError::Security)));
}

#[test]
fn junk_entries_are_skipped() {
    let es = vec![
        entry("__MACOSX/meta", false),
        entry("pic/.DS_Store", false),
        entry("keep.txt", false),
    ];
    let plan = plan_extraction(&es, &None).unwrap();
    assert_eq!(plan.len(), 1);
    assert_eq!(plan[0].rel, "keep.txt");
}

#[test]
fn preview_summary() {
    let es = vec![
        entry("Root/", true),
        entry("Root/mod.ini", false),
        entry("Root/tex.dds", false),
        entry("loose.txt", false),
        entry("Other/deep/x.INI", false),
    ];
    let p = summarize_entries(&es, String::from("zip"));
    assert_eq!(p.format, "zip");
    assert_eq!(p.file_count, 4);
    assert!(p.has_ini);
    assert_eq!(p.root_dirs, vec![String::from("Root"), String::from("Other")]);
}

#[test]
fn staged_strip_only_for_single_directory() {
    assert!(staged_strip_decision(&vec![entry("Folder", true)]));
    assert!(!staged_strip_decision(&vec![entry("file.txt", false)]));
    assert!(!staged_strip_decision(&vec![
        entry("A", true),
        entry("B", true),
    ]));
}

fn make_zip(names: &[(&str, Option<&[u8]>)]) -> Vec<u8> {
    let mut w = zip::ZipWriter::new(std::io::Cursor::new(Vec::new()));
    let opts = zip::write::SimpleFileOptions::default();
    for (name, data) in names {
        match data {
            Some(bytes) => {
                w.start_file(*name, opts).unwrap();
                w.write_all(bytes).unwrap();
            }
            None => {
                w.add_directory(*name, opts).unwrap();
            }
        }
    }
    w.finish().unwrap().into_inner()
}

#[test]
fn zip_round_trip_with_root_stripping() {
    let data = make_zip(&[
        ("PackageRoot/", None),
        ("PackageRoot/mod.ini", Some(b"[x]\n")),
        ("PackageRoot/sub/tex.dds", Some(b"DDS ")),
    ]);
    let mut archive = zip_archive_from_bytes(data).unwrap();
    let es = zip_entries(&mut archive).unwrap();
    let names: Vec<&str> = es.iter().map(|e| e.path.as_str()).collect();
    assert_eq!(
        names,
        vec!["PackageRoot/", "PackageRoot/mod.ini", "PackageRoot/sub/tex.dds"]
    );
    assert!(es[0].is_dir && !es[1].is_dir);
    let strip = compute_strip_prefix(&es);
    assert_eq!(strip, Some(String::from("PackageRoot")));
    let plan = plan_extraction(&es, &strip).unwrap();
    let rels: Vec<&str> = plan.iter().map(|a| a.rel.as_str()).collect();
    assert_eq!(rels, vec!["mod.ini", "sub/tex.dds"]);
    let ini = zip_read_entry(&mut archive, plan[0].index).unwrap();
    assert_eq!(ini, b"[x]\n");
    let dds = zip_read_entry(&mut archive, plan[1].index).unwrap();
    assert_eq!(dds, b"DDS ");
}

#[test]
fn zip_two_roots_preserved() {
    let data = make_zip(&[
        ("A/x.txt", Some(b"xx")),
        ("B/y.txt", Some(b"yy")),
    ]);
    let mut archive = zip_archive_from_bytes(data).unwrap();
    let es = zip_entries(&mut archive).unwrap();
    let strip = compute_strip_prefix(&es);
    assert_eq!(strip, None);
    let plan = plan_extraction(&es, &strip).unwrap();
    let rels: Vec<&str> = plan.iter().map(|a| a.rel.as_str()).collect();
    assert_eq!(rels, vec!["A/x.txt", "B/y.txt"]);
}

#[test]
fn corrupt_zip_is_reported() {
    let garbage = vec![1u8, 2, 3, 4, 5, 6, 7, 8];
    assert!(matches!(
        zip_archive_from_bytes(garbage),
        Err(LibError::ArchiveCorrupt)
    ));
}

#[test]
fn entry_name_codepage_fallback() {
    // valid UTF-8 stays UTF-8
    assert_eq!(decode_entry_name(&b"folder/file.txt".to_vec()), "folder/file.txt");
    // 0xC4 0xE3 is not valid UTF-8; GBK decodes it as one CJK character
    let raw = vec![0xC4u8, 0xE3u8, b'.', b't', b'x', b't'];
    let decoded = decode_entry_name(&raw);
    assert_eq!(decoded, "\u{4F60}.txt");
}

fn dir(name: &str, files: &[&str], subdirs: Vec<DirNode>) -> DirNode {
    DirNode {
        name: String::from(name),
        files: files.iter().map(|f| String::from(*f)).collect(),
        subdirs,
    }
}

#[test]
fn scan_classifies_leaves_and_groups() {
    let root = dir(
        "Mods",
        &[],
        vec![dir(
            "Ayaka",
            &[],
            vec![
                dir("Skin1", &["preview.png", "mod.ini"], vec![]),
                dir("Skin2", &[], vec![]),
            ],
        )],
    );
    let r = scan(&root, "/game/Mods");
    assert_eq!(r.mods.len(), 1);
    let m = &r.mods[0];
    assert_eq!(m.id, "Ayaka/Skin1");
    assert_eq!(m.name, "Skin1");
    assert!(m.enabled);
    assert_eq!(m.group, "Ayaka");
    assert_eq!(m.path, "/game/Mods/Ayaka/Skin1");
    assert_eq!(
        m.preview_images,
        vec![String::from("/game/Mods/Ayaka/Skin1/preview.png")]
    );
    // the container is a group, never a mod; the empty subdirectory is not a mod
    assert_eq!(r.groups, vec![String::from("Ayaka")]);
}

#[test]
fn scan_disabled_root_mod() {
    let root = dir(
        "Mods",
        &[],
        vec![
            dir("DISABLED_Solo", &["mod.ini"], vec![]),
            dir("Empty", &[], vec![]),
        ],
    );
    let r = scan(&root, "/m");
    assert_eq!(r.mods.len(), 1);
    let m = &r.mods[0];
    assert_eq!(m.id, "DISABLED_Solo");
    assert_eq!(m.name, "Solo");
    assert!(!m.enabled);
    assert_eq!(m.group, "Root");
    // the root-level mod's raw name is claimed; the empty directory is a group
    assert_eq!(r.groups, vec![String::from("Empty")]);
}

#[test]
fn scan_sorts_previews_and_groups() {
    let root = dir(
        "Mods",
        &[],
        vec![
            dir("Zeta", &[], vec![dir("M1", &["b.png", "a.png"], vec![])]),
            dir("Alpha", &[], vec![dir("M2", &["x.ini"], vec![])]),
        ],
    );
    let r = scan(&root, "/m");
    assert_eq!(r.groups, vec![String::from("Alpha"), String::from("Zeta")]);
    let m1 = r.mods.iter().find(|m| m.name == "M1").unwrap();
    assert_eq!(
        m1.preview_images,
        vec![String::from("/m/Zeta/M1/a.png"), String::from("/m/Zeta/M1/b.png")]
    );
}
