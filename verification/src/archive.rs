//! Uniform archive model and the smart-extraction planner: format detection
//! by extension, junk-entry filtering, common-root computation, root
//! stripping, and the traversal security check.
use vstd::prelude::*;

use crate::errors::LibError;
use crate::strutil::starts_with;
use crate::strutil::ends_with;
use crate::strutil::to_lower;
use crate::strutil::eq_ignore_case;
use crate::strutil::str_starts_with;
use crate::strutil::str_ends_with;
use crate::strutil::str_ends_with_ignore_case;
use crate::strutil::str_eq_ignore_case;
use crate::strutil::substring_string;
use crate::paths::segments;
use crate::paths::first_segment;
use crate::paths::first_segment_exec;
use crate::paths::segments_exec;
use crate::paths::has_traversal;
use crate::paths::has_traversal_exec;
use crate::strutil::replace_char;
use crate::strutil::str_replace_char;
use crate::strutil::contains_char;
use crate::strutil::find_char;
use crate::strutil::str_find_char;
use crate::strutil::lemma_find_char_spec;
use crate::paths::skip_slashes;
use crate::paths::skip_slashes_exec;
use crate::paths::rfind_char;
use crate::paths::str_rfind_char;

verus! {

/// One record of an opened archive: its `/`-separated internal path and
/// whether it denotes a directory.
#[derive(Debug, Clone)]
pub struct ArchiveEntry {
    pub path: String,
    pub is_dir: bool,
}

/// The container formats this library reads.
#[derive(Clone, Copy, Debug, PartialEq, Eq, Structural)]
pub enum ArchiveFormat {
    Zip,
    SevenZ,
    Rar,
}

/// A summary of an archive's contents, for showing before an install.
#[derive(Debug)]
pub struct ArchivePreview {
    pub root_dirs: Vec<String>,
    pub file_count: usize,
    pub has_ini: bool,
    pub format: String,
}

/// Where the base name of a path begins: right after its last `/` or `\`.
pub open spec fn base_start(p: Seq<char>) -> int {
    let a = match rfind_char(p, '/') {
        Some(i) => i + 1,
        None => 0,
    };
    let b = match rfind_char(p, '\\') {
        Some(i) => i + 1,
        None => 0,
    };
    if a >= b {
        a
    } else {
        b
    }
}

/// The extension of a path's base name: what follows its last `.`, if any.
pub open spec fn spec_extension(p: Seq<char>) -> Option<Seq<char>> {
    let base = p.skip(base_start(p));
    match rfind_char(base, '.') {
        Some(i) => Some(base.skip(i + 1)),
        None => None,
    }
}

/// The format a path's extension names, matched case-insensitively.
pub open spec fn spec_detect(p: Seq<char>) -> Option<ArchiveFormat> {
    match spec_extension(p) {
        Some(e) => if eq_ignore_case(e, "zip"@) {
            Some(ArchiveFormat::Zip)
        } else if eq_ignore_case(e, "7z"@) {
            Some(ArchiveFormat::SevenZ)
        } else if eq_ignore_case(e, "rar"@) {
            Some(ArchiveFormat::Rar)
        } else {
            None
        },
        None => None,
    }
}

/// The extension of a path's base name.
pub fn extension_exec(p: &str) -> (r: Option<String>)
    ensures
        match r {
            Some(e) => spec_extension(p@) == Some(e@),
            None => spec_extension(p@) is None,
        },
{
    let n = p.unicode_len();
    let a = match str_rfind_char(p, '/') {
        Some(i) => {
            proof {
                crate::paths::lemma_rfind_char_spec(p@, '/');
            }
            i + 1
        },
        None => 0,
    };
    let b = match str_rfind_char(p, '\\') {
        Some(i) => {
            proof {
                crate::paths::lemma_rfind_char_spec(p@, '\\');
            }
            i + 1
        },
        None => 0,
    };
    let bs = if a >= b {
        a
    } else {
        b
    };
    proof {
        crate::paths::lemma_rfind_char_spec(p@, '/');
        crate::paths::lemma_rfind_char_spec(p@, '\\');
        assert(bs as int == base_start(p@));
    }
    let base = substring_string(p, bs, n);
    assert(base@ =~= p@.skip(base_start(p@)));
    let m = base.unicode_len();
    match str_rfind_char(base.as_str(), '.') {
        Some(i) => {
            proof {
                crate::paths::lemma_rfind_char_spec(base@, '.');
            }
            Some(substring_string(base.as_str(), i + 1, m))
        },
        None => None,
    }
}

/// Chooses the archive format from a file path's extension, or reports the
/// format as unsupported.
pub fn detect_format(path: &str) -> (r: Result<ArchiveFormat, LibError>)
    ensures
        match r {
            Ok(f) => spec_detect(path@) == Some(f),
            Err(e) => e == LibError::UnsupportedFormat && spec_detect(path@) is None,
        },
{
    match extension_exec(path) {
        Some(e) => {
            if str_eq_ignore_case(e.as_str(), "zip") {
                Ok(ArchiveFormat::Zip)
            } else if str_eq_ignore_case(e.as_str(), "7z") {
                Ok(ArchiveFormat::SevenZ)
            } else if str_eq_ignore_case(e.as_str(), "rar") {
                Ok(ArchiveFormat::Rar)
            } else {
                Err(LibError::UnsupportedFormat)
            }
        },
        None => Err(LibError::UnsupportedFormat),
    }
}

/// Platform metadata entries that never reach extraction.
pub open spec fn is_junk(p: Seq<char>) -> bool {
    starts_with(p, "__MACOSX"@) || ends_with(p, ".DS_Store"@)
}

/// Exec junk test.
pub fn is_junk_exec(p: &str) -> (r: bool)
    ensures
        r == is_junk(p@),
{
    str_starts_with(p, "__MACOSX") || str_ends_with(p, ".DS_Store")
}

/// The top-level segment an entry contributes to common-root detection:
/// none for junk entries or rootless paths.
pub open spec fn entry_root(p: Seq<char>) -> Option<Seq<char>> {
    if is_junk(p) {
        None
    } else {
        first_segment(p)
    }
}

/// Exec form of `entry_root`.
fn entry_root_exec(p: &str) -> (r: Option<String>)
    ensures
        match r {
            Some(s) => entry_root(p@) == Some(s@),
            None => entry_root(p@) is None,
        },
{
    if is_junk_exec(p) {
        None
    } else {
        first_segment_exec(p)
    }
}

/// The common top-level folder of the entries, when every entry that has a
/// root shares the same one; `None` when roots differ or none exists.
pub fn compute_strip_prefix(entries: &Vec<ArchiveEntry>) -> (r: Option<String>)
    ensures
        match r {
            Some(root) => (exists|i: int|
                0 <= i < entries@.len() && entry_root(entries@[i].path@) == Some(root@)) && forall|
                i: int,
            |
                0 <= i < entries@.len() && entry_root(entries@[i].path@) is Some ==> entry_root(
                    entries@[i].path@,
                ) == Some(root@),
            None => (forall|i: int|
                0 <= i < entries@.len() ==> entry_root(#[trigger] entries@[i].path@) is None) || (
            exists|i: int, j: int|
                0 <= i < entries@.len() && 0 <= j < entries@.len() && entry_root(
                    entries@[i].path@,
                ) is Some && entry_root(entries@[j].path@) is Some && entry_root(entries@[i].path@)
                    != entry_root(entries@[j].path@)),
        },
{
    let ghost es = entries@;
    let n = entries.len();
    let mut found: Option<String> = None;
    let ghost mut wi: int = 0;
    let mut multiple: bool = false;
    let ghost mut mi: int = 0;
    let ghost mut mj: int = 0;
    let mut i: usize = 0;
    while i < n
        invariant
            0 <= i <= n,
            n == entries.len(),
            es == entries@,
            multiple ==> 0 <= mi < i && 0 <= mj < i && entry_root(es[mi].path@) is Some
                && entry_root(es[mj].path@) is Some && entry_root(es[mi].path@) != entry_root(
                es[mj].path@,
            ),
            !multiple ==> match found {
                Some(root) => 0 <= wi < i && entry_root(es[wi].path@) == Some(root@) && forall|
                    k: int,
                |
                    0 <= k < i && entry_root(es[k].path@) is Some ==> entry_root(es[k].path@)
                        == Some(root@),
                None => forall|k: int|
                    0 <= k < i ==> entry_root(#[trigger] es[k].path@) is None,
            },
        decreases n - i,
    {
        assert(es[i as int].path@ == entries[i as int].path@);
        if !multiple {
            match entry_root_exec(entries[i].path.as_str()) {
                Some(root) => {
                    match &found {
                        Some(prev) => {
                            if !str_eq_exec(prev.as_str(), root.as_str()) {
                                multiple = true;
                                proof {
                                    mi = wi;
                                    mj = i as int;
                                }
                            }
                        },
                        None => {
                            found = Some(root);
                            proof {
                                wi = i as int;
                            }
                        },
                    }
                },
                None => {},
            }
        }
        i += 1;
    }
    if multiple {
        None
    } else {
        found
    }
}

/// Exec string equality over views.
pub fn str_eq_exec(a: &str, b: &str) -> (r: bool)
    ensures
        r == (a@ == b@),
{
    let n = a.unicode_len();
    let m = b.unicode_len();
    if n != m {
        return false;
    }
    let mut i: usize = 0;
    while i < n
        invariant
            0 <= i <= n,
            n == a@.len(),
            n == b@.len(),
            forall|k: int| 0 <= k < i ==> a@[k] == b@[k],
        decreases n - i,
    {
        if a.get_char(i) != b.get_char(i) {
            return false;
        }
        i += 1;
    }
    assert(a@ =~= b@);
    true
}

/// An entry's path relative to the destination, after optional root
/// stripping: the shared root and the separators after it are removed; a
/// path that is the root itself becomes empty.
pub open spec fn stripped_rel(p: Seq<char>, strip: Option<Seq<char>>) -> Seq<char> {
    match strip {
        Some(root) => if starts_with(p, root) {
            if p.len() > root.len() {
                skip_slashes(p.skip(root.len() as int))
            } else {
                Seq::empty()
            }
        } else {
            p
        },
        None => p,
    }
}

/// Whether an entry is materialized at all: junk entries and entries whose
/// relative path vanishes (the root marker itself) are skipped.
pub open spec fn entry_included(p: Seq<char>, strip: Option<Seq<char>>) -> bool {
    !is_junk(p) && stripped_rel(p, strip).len() > 0
}

/// Whether a planned relative path could escape the destination: it climbs
/// through a `..` segment, is rooted at a separator, or carries a colon (a
/// drive or scheme prefix). Backslashes count as separators for the check.
#[verifier::opaque]
pub open spec fn escapes_dest(p: Seq<char>) -> bool {
    let q = replace_char(p, '\\', '/');
    ||| (q.len() > 0 && q[0] == '/')
    ||| contains_char(p, ':')
    ||| has_traversal(q)
}

/// Exec form of `escapes_dest`.
pub fn escapes_dest_exec(p: &str) -> (r: bool)
    ensures
        r == escapes_dest(p@),
{
    proof {
        reveal(escapes_dest);
        reveal_strlit("/");
        lemma_find_char_spec(p@, ':');
    }
    let q = str_replace_char(p, '\\', "/");
    let qs = q.as_str();
    if qs.unicode_len() > 0 && qs.get_char(0) == '/' {
        return true;
    }
    if str_find_char(p, ':').is_some() {
        return true;
    }
    proof {
        if contains_char(p@, ':') {
            assert(find_char(p@, ':') is Some);
        }
    }
    has_traversal_exec(qs)
}

/// One step of an extraction plan: create the directory `rel`, or write the
/// archive entry at `index` to the file `rel`, under the destination.
#[derive(Debug, Clone)]
pub struct ExtractAction {
    pub is_dir: bool,
    pub index: usize,
    pub rel: String,
}

/// The model of an action: kind, source entry index, relative target path.
pub open spec fn action_model(a: ExtractAction) -> (bool, int, Seq<char>) {
    (a.is_dir, a.index as int, a.rel@)
}

pub open spec fn actions_model(acts: Seq<ExtractAction>) -> Seq<(bool, int, Seq<char>)> {
    acts.map_values(|a: ExtractAction| action_model(a))
}

/// The planned actions for the entries from index `i` on: one action per
/// included entry, in order, carrying its original index and stripped path.
pub open spec fn spec_plan_from(
    es: Seq<ArchiveEntry>,
    strip: Option<Seq<char>>,
    i: int,
) -> Seq<(bool, int, Seq<char>)>
    decreases es.len() - i,
{
    if i < 0 || i >= es.len() {
        Seq::empty()
    } else {
        let rest = spec_plan_from(es, strip, i + 1);
        if entry_included(es[i].path@, strip) {
            seq![(es[i].is_dir, i, stripped_rel(es[i].path@, strip))] + rest
        } else {
            rest
        }
    }
}

pub open spec fn strip_view(s: Option<String>) -> Option<Seq<char>> {
    match s {
        Some(x) => Some(x@),
        None => None,
    }
}

/// Turns an entry list and a root-stripping decision into the extraction
/// plan, rejecting any entry whose target path could still escape the
/// destination: a `..` segment, a rooted path or a drive prefix.
pub fn plan_extraction(entries: &Vec<ArchiveEntry>, strip: &Option<String>) -> (r: Result<
    Vec<ExtractAction>,
    LibError,
>)
    ensures
        match r {
            Ok(acts) => actions_model(acts@) == spec_plan_from(entries@, strip_view(*strip), 0)
                && forall|i: int|
                0 <= i < entries@.len() && entry_included(
                    #[trigger] entries@[i].path@,
                    strip_view(*strip),
                ) ==> !escapes_dest(stripped_rel(entries@[i].path@, strip_view(*strip))),
            Err(e) => e == LibError::Security && exists|i: int|
                0 <= i < entries@.len() && entry_included(
                    #[trigger] entries@[i].path@,
                    strip_view(*strip),
                ) && escapes_dest(stripped_rel(entries@[i].path@, strip_view(*strip))),
        },
{
    let ghost es = entries@;
    let ghost sv = strip_view(*strip);
    let n = entries.len();
    let mut out: Vec<ExtractAction> = Vec::new();
    let mut i: usize = 0;
    while i < n
        invariant
            0 <= i <= n,
            n == entries.len(),
            es == entries@,
            sv == strip_view(*strip),
            spec_plan_from(es, sv, 0) == actions_model(out@) + spec_plan_from(es, sv, i as int),
            forall|k: int|
                0 <= k < i && entry_included(#[trigger] es[k].path@, sv) ==> !escapes_dest(
                    stripped_rel(es[k].path@, sv),
                ),
        decreases n - i,
    {
        assert(es[i as int].path@ == entries[i as int].path@);
        assert(es[i as int].is_dir == entries[i as int].is_dir);
        let path = &entries[i].path;
        let mut skip_entry: bool = false;
        let mut rel: String = String::new();
        if is_junk_exec(path.as_str()) {
            skip_entry = true;
        } else {
            match strip {
                Some(root) => {
                    if str_starts_with(path.as_str(), root.as_str()) {
                        let pl = path.as_str().unicode_len();
                        let rl = root.as_str().unicode_len();
                        if pl > rl {
                            let rem = substring_string(path.as_str(), rl, pl);
                            assert(rem@ =~= path@.skip(root@.len() as int));
                            rel = skip_slashes_exec(rem.as_str());
                        } else {
                            skip_entry = true;
                        }
                    } else {
                        rel = path.clone();
                    }
                },
                None => {
                    rel = path.clone();
                },
            }
        }
        if !skip_entry && rel.as_str().unicode_len() == 0 {
            skip_entry = true;
        }
        if !skip_entry {
            assert(rel@ == stripped_rel(es[i as int].path@, sv));
            assert(entry_included(es[i as int].path@, sv));
            if escapes_dest_exec(rel.as_str()) {
                return Err(LibError::Security);
            }
            let act = ExtractAction { is_dir: entries[i].is_dir, index: i, rel };
            out.push(act);
            proof {
                assert(actions_model(out@) =~= actions_model(out@).subrange(
                    0,
                    actions_model(out@).len() - 1,
                ) + seq![actions_model(out@)[actions_model(out@).len() - 1]]);
                assert(spec_plan_from(es, sv, i as int) == seq![
                    (es[i as int].is_dir, i as int, stripped_rel(es[i as int].path@, sv)),
                ] + spec_plan_from(es, sv, i + 1));
                assert(spec_plan_from(es, sv, 0) =~= actions_model(out@) + spec_plan_from(
                    es,
                    sv,
                    i + 1,
                ));
            }
        } else {
            proof {
                assert(!entry_included(es[i as int].path@, sv));
                assert(spec_plan_from(es, sv, i as int) == spec_plan_from(es, sv, i + 1));
            }
        }
        i += 1;
    }
    proof {
        assert(spec_plan_from(es, sv, n as int) =~= Seq::<(bool, int, Seq<char>)>::empty());
        assert(actions_model(out@) =~= spec_plan_from(es, sv, 0));
    }
    Ok(out)
}

/// How many of the first `i` entries are regular (non-directory) entries.
pub open spec fn count_files(es: Seq<ArchiveEntry>, i: int) -> int
    decreases i,
{
    if i <= 0 || i > es.len() {
        0
    } else {
        count_files(es, i - 1) + if es[i - 1].is_dir {
            0int
        } else {
            1int
        }
    }
}

/// The root a single entry shows in a preview: its first segment, counted
/// when the entry is a directory or lies below a top-level folder.
#[verifier::opaque]
pub open spec fn root_dir_of(e: ArchiveEntry) -> Option<Seq<char>> {
    if e.is_dir || segments(e.path@).len() >= 2 {
        first_segment(e.path@)
    } else {
        None
    }
}

/// Whether a string vector holds a given view.
pub fn vec_contains_str(v: &Vec<String>, s: &str) -> (r: bool)
    ensures
        r == exists|i: int| 0 <= i < v@.len() && v@[i]@ == s@,
{
    let n = v.len();
    let mut i: usize = 0;
    while i < n
        invariant
            0 <= i <= n,
            n == v@.len(),
            forall|k: int| 0 <= k < i ==> v@[k]@ != s@,
        decreases n - i,
    {
        assert(v@[i as int]@ == v[i as int]@);
        if str_eq_exec(v[i].as_str(), s) {
            return true;
        }
        i += 1;
    }
    false
}

/// The preview root of one entry.
fn entry_root_dir(e: &ArchiveEntry) -> (r: Option<String>)
    ensures
        match r {
            Some(s) => root_dir_of(*e) == Some(s@),
            None => root_dir_of(*e) is None,
        },
{
    proof {
        reveal(root_dir_of);
    }
    let segs = segments_exec(e.path.as_str());
    if e.is_dir || segs.len() >= 2 {
        if segs.len() >= 1 {
            assert(segs.deep_view()[0] == segs[0int]@);
            Some(segs[0].clone())
        } else {
            None
        }
    } else {
        None
    }
}

/// The distinct preview roots of the first `i` entries, in
/// first-appearance order.
pub open spec fn spec_root_list(es: Seq<ArchiveEntry>, i: int) -> Seq<Seq<char>>
    decreases i,
{
    if i <= 0 || i > es.len() {
        Seq::empty()
    } else {
        let prev = spec_root_list(es, i - 1);
        match root_dir_of(es[i - 1]) {
            Some(rt) => if prev.contains(rt) {
                prev
            } else {
                prev.push(rt)
            },
            None => prev,
        }
    }
}

/// The root list is duplicate-free, every listed root is some entry's
/// root, and every entry's root is listed.
proof fn lemma_root_list_props(es: Seq<ArchiveEntry>, i: int)
    requires
        0 <= i <= es.len(),
    ensures
        forall|a: int, b: int|
            0 <= a < b < spec_root_list(es, i).len() ==> spec_root_list(es, i)[a]
                != spec_root_list(es, i)[b],
        forall|a: int|
            0 <= a < spec_root_list(es, i).len() ==> exists|k: int|
                0 <= k < i && root_dir_of(es[k]) == Some(#[trigger] spec_root_list(es, i)[a]),
        forall|k: int|
            0 <= k < i && #[trigger] root_dir_of(es[k]) is Some ==> spec_root_list(
                es,
                i,
            ).contains(root_dir_of(es[k])->Some_0),
    decreases i,
{
    if i > 0 {
        lemma_root_list_props(es, i - 1);
        let prev = spec_root_list(es, i - 1);
        let cur = spec_root_list(es, i);
        match root_dir_of(es[i - 1]) {
            Some(rt) => {
                if prev.contains(rt) {
                    assert(cur == prev);
                    assert forall|k: int|
                        0 <= k < i && #[trigger] root_dir_of(es[k]) is Some implies cur.contains(
                        root_dir_of(es[k])->Some_0,
                    ) by {
                        if k == i - 1 {
                            assert(cur.contains(rt));
                        }
                    }
                } else {
                    assert(cur == prev.push(rt));
                    assert(cur[cur.len() - 1] == rt);
                    assert(forall|a: int| 0 <= a < prev.len() ==> cur[a] == prev[a]);
                    assert forall|a: int, b: int| 0 <= a < b < cur.len() implies cur[a]
                        != cur[b] by {
                        if b == cur.len() - 1 {
                            if prev[a] == rt {
                                assert(prev.contains(rt));
                            }
                        }
                    }
                    assert forall|a: int| 0 <= a < cur.len() implies exists|k: int|
                        0 <= k < i && root_dir_of(es[k]) == Some(#[trigger] cur[a]) by {
                        if a < cur.len() - 1 {
                            let k = choose|k: int|
                                0 <= k < i - 1 && root_dir_of(es[k]) == Some(prev[a]);
                            assert(root_dir_of(es[k]) == Some(cur[a]));
                        } else {
                            assert(root_dir_of(es[i - 1]) == Some(cur[a]));
                        }
                    }
                    assert forall|k: int|
                        0 <= k < i && #[trigger] root_dir_of(es[k]) is Some implies cur.contains(
                        root_dir_of(es[k])->Some_0,
                    ) by {
                        if k < i - 1 {
                            let x = root_dir_of(es[k])->Some_0;
                            assert(prev.contains(x));
                            let a = choose|a: int| 0 <= a < prev.len() && prev[a] == x;
                            assert(cur[a] == x);
                        } else {
                            assert(cur[cur.len() - 1] == rt);
                        }
                    }
                }
            },
            None => {
                assert(cur == prev);
                assert forall|k: int|
                    0 <= k < i && #[trigger] root_dir_of(es[k]) is Some implies cur.contains(
                    root_dir_of(es[k])->Some_0,
                ) by {
                    assert(k != i - 1);
                }
            },
        }
    }
}

/// The distinct top-level folders of the entries, in first-appearance
/// order.
fn collect_root_dirs(entries: &Vec<ArchiveEntry>) -> (r: Vec<String>)
    ensures
        r.deep_view() == spec_root_list(entries@, entries@.len() as int),
{
    let ghost es = entries@;
    let n = entries.len();
    let mut out: Vec<String> = Vec::new();
    let mut i: usize = 0;
    proof {
        assert(out.deep_view() =~= spec_root_list(es, 0));
    }
    while i < n
        invariant
            0 <= i <= n,
            n == entries.len(),
            es == entries@,
            out.deep_view() == spec_root_list(es, i as int),
        decreases n - i,
    {
        let e = &entries[i];
        assert(es[i as int] == entries@[i as int]);
        match entry_root_dir(e) {
            Some(rt) => {
                let ghost rtv = rt@;
                assert(root_dir_of(es[i as int]) == Some(rtv));
                let present = vec_contains_str(&out, rt.as_str());
                proof {
                    let dv = out.deep_view();
                    assert(present == dv.contains(rtv)) by {
                        if present {
                            let a = choose|a: int| 0 <= a < out@.len() && out@[a]@ == rtv;
                            assert(dv[a] == rtv);
                        }
                        if dv.contains(rtv) {
                            let a = choose|a: int| 0 <= a < dv.len() && dv[a] == rtv;
                            assert(out@[a]@ == rtv);
                        }
                    }
                }
                if !present {
                    out.push(rt);
                    proof {
                        assert(out.deep_view() =~= spec_root_list(es, i + 1));
                    }
                } else {
                    proof {
                        assert(out.deep_view() =~= spec_root_list(es, i + 1));
                    }
                }
            },
            None => {
                assert(root_dir_of(es[i as int]) is None);
                proof {
                    assert(out.deep_view() =~= spec_root_list(es, i + 1));
                }
            },
        }
        i += 1;
    }
    out
}

/// Summarizes an entry list for a preview: the distinct top-level folders
/// (in first-appearance order), the regular-entry count, whether any entry
/// is an `.ini` file, and the detected format name.
#[verifier::rlimit(60)]
pub fn summarize_entries(entries: &Vec<ArchiveEntry>, format: String) -> (r: ArchivePreview)
    ensures
        r.format == format,
        r.file_count == count_files(entries@, entries@.len() as int),
        r.has_ini == exists|i: int|
            0 <= i < entries@.len() && ends_with(
                to_lower(#[trigger] entries@[i].path@),
                to_lower(".ini"@),
            ),
        forall|i: int, j: int| 0 <= i < j < r.root_dirs@.len() ==> r.root_dirs@[i]@ != r.root_dirs@[j]@,
        forall|i: int|
            0 <= i < r.root_dirs@.len() ==> exists|k: int|
                0 <= k < entries@.len() && root_dir_of(entries@[k]) == Some(
                    #[trigger] r.root_dirs@[i]@,
                ),
        forall|k: int|
            0 <= k < entries@.len() && #[trigger] root_dir_of(entries@[k]) is Some ==> exists|
                i: int,
            | 0 <= i < r.root_dirs@.len() && Some(r.root_dirs@[i]@) == root_dir_of(entries@[k]),
{
    let ghost es = entries@;
    let root_dirs = collect_root_dirs(entries);
    proof {
        let dv = root_dirs.deep_view();
        let len = es.len() as int;
        lemma_root_list_props(es, len);
        assert(dv == spec_root_list(es, len));
        assert(forall|a: int| 0 <= a < root_dirs@.len() ==> (#[trigger] root_dirs@[a])@ == dv[a]);
        assert forall|k: int|
            0 <= k < es.len() && #[trigger] root_dir_of(es[k]) is Some implies exists|a: int|
            0 <= a < root_dirs@.len() && Some(root_dirs@[a]@) == root_dir_of(es[k]) by {
            let x = root_dir_of(es[k])->Some_0;
            assert(dv.contains(x));
            let a = choose|a: int| 0 <= a < dv.len() && dv[a] == x;
            assert(root_dirs@[a]@ == x);
        }
    }
    let n = entries.len();
    let mut file_count: usize = 0;
    let mut has_ini: bool = false;
    let mut i: usize = 0;
    while i < n
        invariant
            0 <= i <= n,
            n == entries.len(),
            es == entries@,
            file_count <= i,
            file_count == count_files(es, i as int),
            has_ini == exists|k: int|
                0 <= k < i && ends_with(to_lower(#[trigger] es[k].path@), to_lower(".ini"@)),
        decreases n - i,
    {
        assert(es[i as int].path@ == entries[i as int].path@);
        assert(es[i as int].is_dir == entries[i as int].is_dir);
        let e = &entries[i];
        proof {
            assert(count_files(es, i + 1) == count_files(es, i as int) + if es[i as int].is_dir {
                0int
            } else {
                1int
            });
        }
        if !e.is_dir {
            file_count += 1;
        }
        if str_ends_with_ignore_case(e.path.as_str(), ".ini") {
            has_ini = true;
        }
        i += 1;
    }
    ArchivePreview { root_dirs, file_count, has_ini, format }
}

/// The entry paths named by an external lister's output: each line trimmed,
/// blank lines dropped, backslashes turned into the uniform separator.
pub open spec fn rar_clean_lines(ls: Seq<Seq<char>>) -> Seq<Seq<char>>
    decreases ls.len(),
{
    if ls.len() == 0 {
        Seq::empty()
    } else {
        let t = crate::strutil::trim(ls[0]);
        let head: Seq<Seq<char>> = if t.len() > 0 {
            seq![crate::strutil::replace_char(t, '\\', '/')]
        } else {
            Seq::empty()
        };
        head + rar_clean_lines(ls.skip(1))
    }
}

/// Parses the line-per-entry listing an external archive tool prints.
pub fn parse_rar_listing(stdout: &str) -> (r: Vec<String>)
    ensures
        r.deep_view() == rar_clean_lines(crate::ini::spec_split_lines(stdout@)),
{
    let lines = crate::ini::split_lines_exec(stdout);
    let ghost dv = lines.deep_view();
    let n = lines.len();
    let mut out: Vec<String> = Vec::new();
    let mut i: usize = 0;
    proof {
        assert(dv.skip(0) =~= dv);
        assert(out.deep_view() + rar_clean_lines(dv) =~= rar_clean_lines(dv));
    }
    while i < n
        invariant
            0 <= i <= n,
            n == lines.len(),
            dv == lines.deep_view(),
            dv.len() == n,
            rar_clean_lines(dv) == out.deep_view() + rar_clean_lines(dv.skip(i as int)),
        decreases n - i,
    {
        assert(dv[i as int] == lines[i as int]@);
        proof {
            assert(dv.skip(i as int)[0] == dv[i as int]);
            assert(dv.skip(i as int).skip(1) =~= dv.skip(i + 1));
            reveal_strlit("/");
        }
        let t = crate::strutil::str_trim(lines[i].as_str());
        if t.unicode_len() > 0 {
            let cleaned = crate::strutil::str_replace_char(t, '\\', "/");
            out.push(cleaned);
            proof {
                assert(out.deep_view() =~= out.deep_view().subrange(
                    0,
                    out.deep_view().len() - 1,
                ) + seq![out.deep_view()[out.deep_view().len() - 1]]);
                assert(rar_clean_lines(dv) =~= out.deep_view() + rar_clean_lines(dv.skip(i + 1)));
            }
        } else {
            proof {
                assert(rar_clean_lines(dv) =~= out.deep_view() + rar_clean_lines(dv.skip(i + 1)));
            }
        }
        i += 1;
    }
    proof {
        assert(rar_clean_lines(dv.skip(n as int)) =~= Seq::<Seq<char>>::empty());
        assert(rar_clean_lines(dv) =~= out.deep_view());
    }
    out
}

/// The decision for a staged extraction: when the staging root holds
/// exactly one item and it is a directory, its contents move up one level.
pub fn staged_strip_decision(root_items: &Vec<ArchiveEntry>) -> (r: bool)
    ensures
        r == (root_items@.len() == 1 && root_items@[0].is_dir),
{
    if root_items.len() == 1 {
        root_items[0].is_dir
    } else {
        false
    }
}

} // verus!
