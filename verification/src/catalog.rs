//! Mod catalog scanning: classifies a directory tree into leaf mods and
//! groups. A directory is a leaf mod when it directly holds a preview image
//! or a config (`.ini`) file; anything else is a container, walked to a
//! bounded depth. The tree itself is handed in as plain values, read from
//! disk by the caller.
use vstd::prelude::*;

use vstd::relations::sorted_by;
use crate::codec::spec_display_name;
use crate::codec::spec_enabled;
use crate::codec::decode;
use crate::strutil::eq_ignore_case;
use crate::strutil::str_eq_ignore_case;
use crate::strutil::concat3;
use crate::archive::spec_extension;
use crate::archive::extension_exec;
use crate::sorting::lex_leq;
use crate::sorting::sort_strings;
use crate::sorting::sort_dedup_strings;

verus! {

/// A snapshot of one on-disk directory: its base name, the names of the
/// plain files directly inside it, and its subdirectories.
pub struct DirNode {
    pub name: String,
    pub files: Vec<String>,
    pub subdirs: Vec<DirNode>,
}

/// One discovered leaf mod.
#[derive(Debug, Clone)]
pub struct ModInfo {
    pub id: String,
    pub name: String,
    pub enabled: bool,
    pub path: String,
    pub relative_path: String,
    pub preview_images: Vec<String>,
    pub group: String,
    pub is_dir: bool,
}

/// A whole catalog scan: the discovered mods and the group names.
#[derive(Debug)]
pub struct ModScanResult {
    pub mods: Vec<ModInfo>,
    pub groups: Vec<String>,
}

/// The mathematical model of one discovered mod. The preview list here is
/// unsorted (directory order); the executable scan returns it sorted.
pub struct ModSpec {
    pub id: Seq<char>,
    pub name: Seq<char>,
    pub enabled: bool,
    pub path: Seq<char>,
    pub rel: Seq<char>,
    pub previews: Seq<Seq<char>>,
    pub group: Seq<char>,
}

/// Whether a file name carries a preview-image extension.
pub open spec fn is_image_name(f: Seq<char>) -> bool {
    match spec_extension(f) {
        Some(e) => eq_ignore_case(e, "jpg"@) || eq_ignore_case(e, "jpeg"@) || eq_ignore_case(
            e,
            "png"@,
        ) || eq_ignore_case(e, "gif"@) || eq_ignore_case(e, "bmp"@) || eq_ignore_case(e, "webp"@),
        None => false,
    }
}

/// Whether a file name carries the config extension.
pub open spec fn is_ini_name(f: Seq<char>) -> bool {
    match spec_extension(f) {
        Some(e) => eq_ignore_case(e, "ini"@),
        None => false,
    }
}

/// A directory is a leaf mod when it directly holds a preview image or a
/// config file.
pub open spec fn spec_is_leaf(fs: Seq<Seq<char>>) -> bool {
    exists|i: int| 0 <= i < fs.len() && (is_image_name(#[trigger] fs[i]) || is_ini_name(fs[i]))
}

/// The absolute paths of the preview images in a directory, in file order.
pub open spec fn spec_preview_list(dir: Seq<char>, fs: Seq<Seq<char>>) -> Seq<Seq<char>>
    decreases fs.len(),
{
    if fs.len() == 0 {
        Seq::empty()
    } else {
        let head: Seq<Seq<char>> = if is_image_name(fs[0]) {
            seq![dir + seq!['/'] + fs[0]]
        } else {
            Seq::empty()
        };
        head + spec_preview_list(dir, fs.skip(1))
    }
}

/// The model of the leaf mod made from directory `c` under `dir_path`.
pub open spec fn leaf_mod(c: DirNode, dir_path: Seq<char>, rel: Seq<char>, group: Seq<char>) -> ModSpec {
    let child_path = dir_path + seq!['/'] + c.name@;
    let child_rel = if rel.len() == 0 {
        c.name@
    } else {
        rel + seq!['/'] + c.name@
    };
    ModSpec {
        id: child_rel,
        name: spec_display_name(c.name@),
        enabled: spec_enabled(c.name@),
        path: child_path,
        rel: child_rel,
        previews: spec_preview_list(child_path, c.files.deep_view()),
        group: group,
    }
}

/// The mods found among grandchild directories, the deepest level a leaf
/// mod may sit at: leaves count; containers here contribute nothing, so
/// nothing deeper than two levels below the mods root is classified.
pub open spec fn scan_l1(cs: Seq<DirNode>, dir_path: Seq<char>, rel: Seq<char>, group: Seq<
    char,
>) -> Seq<ModSpec>
    decreases cs.len(),
{
    if cs.len() == 0 {
        Seq::empty()
    } else {
        let c = cs[0];
        let here: Seq<ModSpec> = if spec_is_leaf(c.files.deep_view()) {
            seq![leaf_mod(c, dir_path, rel, group)]
        } else {
            Seq::empty()
        };
        here + scan_l1(cs.skip(1), dir_path, rel, group)
    }
}

/// The mods found among the root's children: a leaf becomes an ungrouped
/// mod; a container names a group and is walked.
pub open spec fn scan_l0(cs: Seq<DirNode>, dir_path: Seq<char>, root_group: Seq<char>) -> Seq<
    ModSpec,
>
    decreases cs.len(),
{
    if cs.len() == 0 {
        Seq::empty()
    } else {
        let c = cs[0];
        let child_path = dir_path + seq!['/'] + c.name@;
        let child_rel = c.name@;
        let here: Seq<ModSpec> = if spec_is_leaf(c.files.deep_view()) {
            seq![leaf_mod(c, dir_path, Seq::empty(), root_group)]
        } else {
            scan_l1(c.subdirs@, child_path, child_rel, spec_display_name(c.name@))
        };
        here + scan_l0(cs.skip(1), dir_path, root_group)
    }
}

/// Whether an executable `ModInfo` realizes a model: equal fields, with the
/// preview list sorted.
pub open spec fn mod_matches(m: ModInfo, s: ModSpec) -> bool {
    &&& m.id@ == s.id
    &&& m.name@ == s.name
    &&& m.enabled == s.enabled
    &&& m.path@ == s.path
    &&& m.relative_path@ == s.rel
    &&& m.group@ == s.group
    &&& m.is_dir == true
    &&& sorted_by(m.preview_images.deep_view(), lex_leq())
    &&& m.preview_images.deep_view().to_multiset() == s.previews.to_multiset()
}

pub open spec fn mods_match(ms: Seq<ModInfo>, ss: Seq<ModSpec>) -> bool {
    ms.len() == ss.len() && forall|i: int| 0 <= i < ms.len() ==> mod_matches(#[trigger] ms[i], ss[i])
}

/// Exec image-name test.
pub fn is_image_name_exec(f: &str) -> (r: bool)
    ensures
        r == is_image_name(f@),
{
    match extension_exec(f) {
        Some(e) => {
            let es = e.as_str();
            str_eq_ignore_case(es, "jpg") || str_eq_ignore_case(es, "jpeg") || str_eq_ignore_case(
                es,
                "png",
            ) || str_eq_ignore_case(es, "gif") || str_eq_ignore_case(es, "bmp")
                || str_eq_ignore_case(es, "webp")
        },
        None => false,
    }
}

/// Exec config-name test.
pub fn is_ini_name_exec(f: &str) -> (r: bool)
    ensures
        r == is_ini_name(f@),
{
    match extension_exec(f) {
        Some(e) => str_eq_ignore_case(e.as_str(), "ini"),
        None => false,
    }
}

/// Exec leaf test over a directory's files.
pub fn is_leaf_exec(files: &Vec<String>) -> (r: bool)
    ensures
        r == spec_is_leaf(files.deep_view()),
{
    let ghost dv = files.deep_view();
    let n = files.len();
    let mut i: usize = 0;
    while i < n
        invariant
            0 <= i <= n,
            n == files.len(),
            dv == files.deep_view(),
            dv.len() == n,
            forall|k: int| 0 <= k < i ==> !(is_image_name(#[trigger] dv[k]) || is_ini_name(dv[k])),
        decreases n - i,
    {
        assert(dv[i as int] == files[i as int]@);
        if is_image_name_exec(files[i].as_str()) || is_ini_name_exec(files[i].as_str()) {
            return true;
        }
        i += 1;
    }
    false
}

/// The preview-image paths of a directory, in file order (unsorted).
fn preview_list_exec(dir: &str, files: &Vec<String>) -> (r: Vec<String>)
    ensures
        r.deep_view() == spec_preview_list(dir@, files.deep_view()),
{
    let ghost dv = files.deep_view();
    let n = files.len();
    let mut out: Vec<String> = Vec::new();
    let mut i: usize = 0;
    proof {
        assert(dv.skip(0) =~= dv);
        assert(out.deep_view() + spec_preview_list(dir@, dv) =~= spec_preview_list(dir@, dv));
    }
    while i < n
        invariant
            0 <= i <= n,
            n == files.len(),
            dv == files.deep_view(),
            dv.len() == n,
            spec_preview_list(dir@, dv) == out.deep_view() + spec_preview_list(
                dir@,
                dv.skip(i as int),
            ),
        decreases n - i,
    {
        assert(dv[i as int] == files[i as int]@);
        proof {
            assert(dv.skip(i as int)[0] == dv[i as int]);
            assert(dv.skip(i as int).skip(1) =~= dv.skip(i + 1));
        }
        if is_image_name_exec(files[i].as_str()) {
            let full = concat3(dir, "/", files[i].as_str());
            proof {
                reveal_strlit("/");
                assert("/"@ =~= seq!['/']);
            }
            assert(full@ == dir@ + seq!['/'] + dv[i as int]);
            out.push(full);
            proof {
                assert(out.deep_view() =~= out.deep_view().subrange(
                    0,
                    out.deep_view().len() - 1,
                ) + seq![out.deep_view()[out.deep_view().len() - 1]]);
                assert(spec_preview_list(dir@, dv) =~= out.deep_view() + spec_preview_list(
                    dir@,
                    dv.skip(i + 1),
                ));
            }
        } else {
            proof {
                assert(spec_preview_list(dir@, dv) =~= out.deep_view() + spec_preview_list(
                    dir@,
                    dv.skip(i + 1),
                ));
            }
        }
        i += 1;
    }
    proof {
        assert(spec_preview_list(dir@, dv.skip(n as int)) =~= Seq::<Seq<char>>::empty());
        assert(spec_preview_list(dir@, dv) =~= out.deep_view());
    }
    out
}

/// Builds the `ModInfo` for a leaf directory, previews sorted.
fn make_leaf_mod(c: &DirNode, dir_path: &str, rel: &str, group: &str) -> (m: ModInfo)
    ensures
        mod_matches(m, leaf_mod(*c, dir_path@, rel@, group@)),
{
    proof {
        reveal_strlit("/");
        assert("/"@ =~= seq!['/']);
    }
    let child_path = concat3(dir_path, "/", c.name.as_str());
    let child_rel = if rel.unicode_len() == 0 {
        String::from_str(c.name.as_str())
    } else {
        concat3(rel, "/", c.name.as_str())
    };
    let decoded = decode(c.name.as_str());
    let unsorted = preview_list_exec(child_path.as_str(), &c.files);
    let previews = sort_strings(&unsorted);
    ModInfo {
        id: child_rel.clone(),
        name: decoded.0,
        enabled: decoded.1,
        path: child_path,
        relative_path: child_rel,
        preview_images: previews,
        group: String::from_str(group),
        is_dir: true,
    }
}

/// Scans grandchild directories, the deepest level a leaf mod may sit at:
/// leaves become mods; containers here contribute nothing.
fn scan_level1(cs: &Vec<DirNode>, dir_path: &str, rel: &str, group: &str) -> (r: Vec<ModInfo>)
    ensures
        mods_match(r@, scan_l1(cs@, dir_path@, rel@, group@)),
{
    let ghost target = scan_l1(cs@, dir_path@, rel@, group@);
    let mut out: Vec<ModInfo> = Vec::new();
    let ghost mut done: Seq<ModSpec> = Seq::empty();
    let n = cs.len();
    let mut i: usize = 0;
    proof {
        assert(cs@.skip(0) =~= cs@);
        assert(done + target =~= target);
    }
    while i < n
        invariant
            0 <= i <= n,
            n == cs@.len(),
            target == scan_l1(cs@, dir_path@, rel@, group@),
            target == done + scan_l1(cs@.skip(i as int), dir_path@, rel@, group@),
            out@.len() == done.len(),
            forall|k: int| 0 <= k < done.len() ==> mod_matches(#[trigger] out@[k], done[k]),
        decreases n - i,
    {
        proof {
            assert(cs@.skip(i as int)[0] == cs@[i as int]);
            assert(cs@.skip(i as int).skip(1) =~= cs@.skip(i + 1));
            reveal_strlit("/");
            assert("/"@ =~= seq!['/']);
        }
        let c = &cs[i];
        if is_leaf_exec(&c.files) {
            let m = make_leaf_mod(c, dir_path, rel, group);
            out.push(m);
            proof {
                done = done + seq![leaf_mod(cs@[i as int], dir_path@, rel@, group@)];
                assert(target =~= done + scan_l1(cs@.skip(i + 1), dir_path@, rel@, group@));
            }
        } else {
            proof {
                assert(target =~= done + scan_l1(cs@.skip(i + 1), dir_path@, rel@, group@));
            }
        }
        i += 1;
    }
    proof {
        assert(scan_l1(cs@.skip(n as int), dir_path@, rel@, group@) =~= Seq::<ModSpec>::empty());
        assert(target =~= done);
    }
    out
}

/// Scans the root's children: leaf mods sit ungrouped under the sentinel
/// group; containers name groups.
fn scan_level0(cs: &Vec<DirNode>, dir_path: &str, root_group: &str) -> (r: Vec<ModInfo>)
    ensures
        mods_match(r@, scan_l0(cs@, dir_path@, root_group@)),
{
    let ghost target = scan_l0(cs@, dir_path@, root_group@);
    let mut out: Vec<ModInfo> = Vec::new();
    let ghost mut done: Seq<ModSpec> = Seq::empty();
    let n = cs.len();
    let mut i: usize = 0;
    proof {
        assert(cs@.skip(0) =~= cs@);
        assert(done + target =~= target);
    }
    while i < n
        invariant
            0 <= i <= n,
            n == cs@.len(),
            target == scan_l0(cs@, dir_path@, root_group@),
            target == done + scan_l0(cs@.skip(i as int), dir_path@, root_group@),
            out@.len() == done.len(),
            forall|k: int| 0 <= k < done.len() ==> mod_matches(#[trigger] out@[k], done[k]),
        decreases n - i,
    {
        proof {
            assert(cs@.skip(i as int)[0] == cs@[i as int]);
            assert(cs@.skip(i as int).skip(1) =~= cs@.skip(i + 1));
            reveal_strlit("/");
            assert("/"@ =~= seq!['/']);
        }
        let c = &cs[i];
        if is_leaf_exec(&c.files) {
            let m = make_leaf_mod(c, dir_path, "", root_group);
            proof {
                reveal_strlit("");
                assert(""@ =~= Seq::<char>::empty());
            }
            out.push(m);
            proof {
                done = done + seq![leaf_mod(cs@[i as int], dir_path@, Seq::empty(), root_group@)];
                assert(target =~= done + scan_l0(cs@.skip(i + 1), dir_path@, root_group@));
            }
        } else {
            let child_path = concat3(dir_path, "/", c.name.as_str());
            let child_rel = String::from_str(c.name.as_str());
            let decoded = decode(c.name.as_str());
            let ghost sub_spec = scan_l1(
                cs@[i as int].subdirs@,
                child_path@,
                child_rel@,
                spec_display_name(cs@[i as int].name@),
            );
            let mut sub = scan_level1(
                &c.subdirs,
                child_path.as_str(),
                child_rel.as_str(),
                decoded.0.as_str(),
            );
            let ghost subv = sub@;
            let ghost out0 = out@;
            out.append(&mut sub);
            proof {
                assert(out@ == out0 + subv);
                done = done + sub_spec;
                assert(target =~= done + scan_l0(cs@.skip(i + 1), dir_path@, root_group@));
                assert forall|k: int| 0 <= k < done.len() implies mod_matches(
                    #[trigger] out@[k],
                    done[k],
                ) by {
                    if k < out0.len() {
                        assert(out@[k] == out0[k]);
                    } else {
                        assert(out@[k] == subv[k - out0.len()]);
                        assert(mod_matches(subv[k - out0.len()], sub_spec[k - out0.len()]));
                    }
                }
            }
        }
        i += 1;
    }
    proof {
        assert(scan_l0(cs@.skip(n as int), dir_path@, root_group@) =~= Seq::<ModSpec>::empty());
        assert(target =~= done);
    }
    out
}

/// Whether `g` is one of the catalog's group names: a root child directory
/// whose raw name no root-level mod claims as its id, or the group of a mod
/// found deeper in the tree.
pub open spec fn is_group_name(
    g: Seq<char>,
    children: Seq<DirNode>,
    mods: Seq<ModSpec>,
    root_group: Seq<char>,
) -> bool {
    ||| ((exists|c: int| 0 <= c < children.len() && (#[trigger] children[c].name)@ == g) && !(
    exists|m: int|
        0 <= m < mods.len() && (#[trigger] mods[m].group) == root_group && mods[m].id == g))
    ||| (exists|m: int|
        0 <= m < mods.len() && (#[trigger] mods[m].group) != root_group && mods[m].group == g)
}

/// Scans a mods root handed in as a directory snapshot. The mods come from
/// walking the tree; the group list holds exactly the catalog's group
/// names, sorted and without repeats.
pub fn scan(root: &DirNode, base_path: &str) -> (r: ModScanResult)
    ensures
        mods_match(r.mods@, scan_l0(root.subdirs@, base_path@, "Root"@)),
        sorted_by(r.groups.deep_view(), lex_leq()),
        forall|p: int, q: int|
            0 <= p < q < r.groups.deep_view().len() ==> r.groups.deep_view()[p]
                != r.groups.deep_view()[q],
        forall|g: Seq<char>| #[trigger]
            r.groups.deep_view().contains(g) <==> is_group_name(
                g,
                root.subdirs@,
                scan_l0(root.subdirs@, base_path@, "Root"@),
                "Root"@,
            ),
{
    let ghost sm = scan_l0(root.subdirs@, base_path@, "Root"@);
    let mods = scan_level0(&root.subdirs, base_path, "Root");
    let ghost mdv = mods@;
    // collect group candidates: root children not claimed as root-level mod
    // ids, then groups of deeper mods
    let mut cands: Vec<String> = Vec::new();
    let n = root.subdirs.len();
    let mut i: usize = 0;
    while i < n
        invariant
            0 <= i <= n,
            n == root.subdirs@.len(),
            mdv == mods@,
            mods_match(mdv, sm),
            sm == scan_l0(root.subdirs@, base_path@, "Root"@),
            forall|k: int|
                0 <= k < cands.deep_view().len() ==> is_group_name(
                    #[trigger] cands.deep_view()[k],
                    root.subdirs@,
                    sm,
                    "Root"@,
                ),
            forall|c: int|
                0 <= c < i && !(exists|m: int|
                    0 <= m < sm.len() && (#[trigger] sm[m].group) == "Root"@ && sm[m].id == (
                    root.subdirs@[c].name)@) ==> cands.deep_view().contains(
                    ((#[trigger] root.subdirs@[c].name)@),
                ),
        decreases n - i,
    {
        assert(root.subdirs@[i as int].name@ == root.subdirs[i as int].name@);
        let name = &root.subdirs[i].name;
        // is this raw name claimed by a root-level mod id?
        let mut claimed: bool = false;
        let m = mods.len();
        let mut j: usize = 0;
        while j < m
            invariant
                0 <= j <= m,
                0 <= i < n,
                n == root.subdirs@.len(),
                m == mods@.len(),
                mdv == mods@,
                mods_match(mdv, sm),
                name@ == root.subdirs@[i as int].name@,
                claimed ==> exists|k: int|
                    0 <= k < sm.len() && (#[trigger] sm[k].group) == "Root"@ && sm[k].id == name@,
                !claimed ==> forall|k: int|
                    0 <= k < j ==> !((#[trigger] sm[k].group) == "Root"@ && sm[k].id == name@),
            decreases m - j,
        {
            if !claimed {
                assert(mod_matches(mdv[j as int], sm[j as int]));
                let gr = &mods[j].group;
                let idr = &mods[j].id;
                if crate::archive::str_eq_exec(gr.as_str(), "Root") && crate::archive::str_eq_exec(
                    idr.as_str(),
                    name.as_str(),
                ) {
                    claimed = true;
                    assert(sm[j as int].group == "Root"@ && sm[j as int].id == name@);
                }
            }
            j += 1;
        }
        if !claimed {
            let ghost cdv0 = cands.deep_view();
            cands.push(name.clone());
            proof {
                let cdv = cands.deep_view();
                assert(cdv =~= cdv0.push(name@));
                assert(cdv[cdv.len() - 1] == name@);
                assert(is_group_name(name@, root.subdirs@, sm, "Root"@)) by {
                    assert((root.subdirs@[i as int].name)@ == name@);
                    assert(sm.len() == m);
                }
                assert forall|k: int| 0 <= k < cdv.len() implies is_group_name(
                    #[trigger] cdv[k],
                    root.subdirs@,
                    sm,
                    "Root"@,
                ) by {
                    if k < cdv.len() - 1 {
                        assert(cdv[k] == cdv0[k]);
                    }
                }
                assert forall|c: int|
                    0 <= c < i + 1 && !(exists|mm: int|
                        0 <= mm < sm.len() && (#[trigger] sm[mm].group) == "Root"@ && sm[mm].id == (
                        root.subdirs@[c].name)@) implies cdv.contains(
                    ((#[trigger] root.subdirs@[c].name)@),
                ) by {
                    if c < i {
                        assert(cdv0.contains((root.subdirs@[c].name)@));
                        let w = choose|w: int|
                            0 <= w < cdv0.len() && cdv0[w] == (root.subdirs@[c].name)@;
                        assert(cdv[w] == (root.subdirs@[c].name)@);
                    } else {
                        assert(cdv[cdv.len() - 1] == (root.subdirs@[c].name)@);
                    }
                }
            }
        } else {
            proof {
                let cdv = cands.deep_view();
                assert forall|c: int|
                    0 <= c < i + 1 && !(exists|mm: int|
                        0 <= mm < sm.len() && (#[trigger] sm[mm].group) == "Root"@ && sm[mm].id == (
                        root.subdirs@[c].name)@) implies cdv.contains(
                    ((#[trigger] root.subdirs@[c].name)@),
                ) by {
                    assert(c != i);
                }
            }
        }
        i += 1;
    }
    // groups carried by mods found deeper in the tree
    let m = mods.len();
    let mut j: usize = 0;
    while j < m
        invariant
            0 <= j <= m,
            m == mods@.len(),
            mdv == mods@,
            mods_match(mdv, sm),
            sm == scan_l0(root.subdirs@, base_path@, "Root"@),
            forall|k: int|
                0 <= k < cands.deep_view().len() ==> is_group_name(
                    #[trigger] cands.deep_view()[k],
                    root.subdirs@,
                    sm,
                    "Root"@,
                ),
            forall|c: int|
                0 <= c < root.subdirs@.len() && !(exists|mm: int|
                    0 <= mm < sm.len() && (#[trigger] sm[mm].group) == "Root"@ && sm[mm].id == (
                    root.subdirs@[c].name)@) ==> cands.deep_view().contains(
                    ((#[trigger] root.subdirs@[c].name)@),
                ),
            forall|k: int|
                0 <= k < j && (#[trigger] sm[k].group) != "Root"@ ==> cands.deep_view().contains(
                    sm[k].group,
                ),
        decreases m - j,
    {
        assert(mod_matches(mdv[j as int], sm[j as int]));
        let gr = &mods[j].group;
        if !crate::archive::str_eq_exec(gr.as_str(), "Root") {
            let ghost cdv0 = cands.deep_view();
            cands.push(gr.clone());
            proof {
                let cdv = cands.deep_view();
                assert(cdv =~= cdv0.push(sm[j as int].group));
                assert(cdv[cdv.len() - 1] == sm[j as int].group);
                assert(is_group_name(sm[j as int].group, root.subdirs@, sm, "Root"@));
                assert forall|c: int|
                    0 <= c < root.subdirs@.len() && !(exists|mm: int|
                        0 <= mm < sm.len() && (#[trigger] sm[mm].group) == "Root"@ && sm[mm].id == (
                        root.subdirs@[c].name)@) implies cdv.contains(
                    ((#[trigger] root.subdirs@[c].name)@),
                ) by {
                    assert(cdv0.contains((root.subdirs@[c].name)@));
                    let w = choose|w: int|
                        0 <= w < cdv0.len() && cdv0[w] == (root.subdirs@[c].name)@;
                    assert(cdv[w] == (root.subdirs@[c].name)@);
                }
                assert forall|k: int|
                    0 <= k < j + 1 && (#[trigger] sm[k].group) != "Root"@ implies cdv.contains(
                    sm[k].group,
                ) by {
                    if k < j {
                        assert(cdv0.contains(sm[k].group));
                        let w = choose|w: int| 0 <= w < cdv0.len() && cdv0[w] == sm[k].group;
                        assert(cdv[w] == sm[k].group);
                    } else {
                        assert(cdv[cdv.len() - 1] == sm[k].group);
                    }
                }
            }
        } else {
            proof {
                assert forall|k: int|
                    0 <= k < j + 1 && (#[trigger] sm[k].group) != "Root"@ implies cands.deep_view().contains(
                    sm[k].group,
                ) by {
                    assert(k != j);
                }
            }
        }
        j += 1;
    }
    let groups = sort_dedup_strings(&cands);
    proof {
        assert forall|g: Seq<char>| #[trigger]
            groups.deep_view().contains(g) <==> is_group_name(g, root.subdirs@, sm, "Root"@) by {
            if groups.deep_view().contains(g) {
                assert(cands.deep_view().contains(g));
                let w = choose|w: int|
                    0 <= w < cands.deep_view().len() && cands.deep_view()[w] == g;
                assert(is_group_name(cands.deep_view()[w], root.subdirs@, sm, "Root"@));
            }
            if is_group_name(g, root.subdirs@, sm, "Root"@) {
                if (exists|c: int| 0 <= c < root.subdirs@.len() && (#[trigger] root.subdirs@[c].name)@ == g)
                    && !(exists|m2: int|
                    0 <= m2 < sm.len() && (#[trigger] sm[m2].group) == "Root"@ && sm[m2].id == g) {
                    let c = choose|c: int|
                        0 <= c < root.subdirs@.len() && (#[trigger] root.subdirs@[c].name)@ == g;
                    assert(cands.deep_view().contains((root.subdirs@[c].name)@));
                } else {
                    let m2 = choose|m2: int|
                        0 <= m2 < sm.len() && (#[trigger] sm[m2].group) != "Root"@ && sm[m2].group
                            == g;
                    assert(cands.deep_view().contains(sm[m2].group));
                }
            }
        }
    }
    ModScanResult { mods, groups }
}

} // verus!
