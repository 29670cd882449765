//! Game-configuration values and the pure decisions around them: preset
//! lookup tables, update-asset selection, background-file naming, path
//! normalization for the front end, and the sidebar-visibility list.
use vstd::prelude::*;

use crate::errors::LibError;
use crate::strutil::starts_with;
use crate::strutil::replace_char;
use crate::strutil::str_starts_with;
use crate::strutil::str_replace_char;
use crate::strutil::str_ends_with;
use crate::strutil::ends_with;
use crate::strutil::substring_string;
use crate::strutil::concat2;
use crate::strutil::concat3;
use crate::archive::str_eq_exec;

verus! {

/// The basic per-game settings.
#[derive(Debug, Clone)]
pub struct BasicSettings {
    pub game_preset: String,
    pub background_type: String,
}

/// The background type used when a configuration does not name one.
pub fn default_bg_type() -> (r: String)
    ensures
        r@ == "image"@,
{
    String::from_str("image")
}

impl Default for BasicSettings {
    /// The default settings: the default preset with an image background.
    fn default() -> (r: Self)
        ensures
            r.game_preset@ == "Default"@,
            r.background_type@ == "image"@,
    {
        BasicSettings {
            game_preset: String::from_str("Default"),
            background_type: default_bg_type(),
        }
    }
}

/// One game tile of the launcher sidebar.
#[derive(Debug, Clone)]
pub struct GameInfo {
    pub name: String,
    pub icon_path: String,
    pub bg_path: String,
    pub bg_video_path: Option<String>,
    pub bg_type: String,
    pub show_sidebar: bool,
}

/// A loader release offered for download.
#[derive(Debug, Clone)]
pub struct UpdateInfo {
    pub version: String,
    pub description: String,
    pub download_url: String,
}

/// A normalized path for the front end: the Windows extended-length prefix
/// is stripped and backslashes become forward slashes.
pub open spec fn spec_normalize_path(p: Seq<char>) -> Seq<char> {
    let stripped = if starts_with(p, "\\\\?\\"@) {
        p.skip("\\\\?\\"@.len() as int)
    } else {
        p
    };
    replace_char(stripped, '\\', '/')
}

/// Exec form of `spec_normalize_path`.
pub fn normalize_path(p: &str) -> (r: String)
    ensures
        r@ == spec_normalize_path(p@),
{
    proof {
        reveal_strlit("/");
    }
    let stripped: String = if str_starts_with(p, "\\\\?\\") {
        let pre = "\\\\?\\";
        let k = pre.unicode_len();
        let n = p.unicode_len();
        substring_string(p, k, n)
    } else {
        String::from_str(p)
    };
    assert(stripped@ =~= if starts_with(p@, "\\\\?\\"@) {
        p@.skip("\\\\?\\"@.len() as int)
    } else {
        p@
    });
    str_replace_char(stripped.as_str(), '\\', "/")
}

/// The release repository for a loader preset.
pub open spec fn spec_release_repo(p: Seq<char>) -> Option<Seq<char>> {
    if p == "GIMI"@ {
        Some("SilentNightSound/GIMI-Package"@)
    } else if p == "HIMI"@ {
        Some("leotorrez/HIMI-Package"@)
    } else if p == "SRMI"@ {
        Some("SpectrumQT/SRMI-Package"@)
    } else if p == "ZZMI"@ {
        Some("leotorrez/ZZMI-Package"@)
    } else if p == "WWMI"@ {
        Some("SpectrumQT/WWMI-Package"@)
    } else if p == "EFMI"@ {
        Some("SpectrumQT/EFMI-Package"@)
    } else if p == "AEMI"@ {
        Some("StarBobis/MinBase-Package"@)
    } else {
        None
    }
}

/// Looks up the release repository; an unknown preset has none to offer.
pub fn release_repo(preset: &str) -> (r: Result<String, LibError>)
    ensures
        match r {
            Ok(s) => spec_release_repo(preset@) == Some(s@),
            Err(e) => e == LibError::NotFound && spec_release_repo(preset@) is None,
        },
{
    if str_eq_exec(preset, "GIMI") {
        Ok(String::from_str("SilentNightSound/GIMI-Package"))
    } else if str_eq_exec(preset, "HIMI") {
        Ok(String::from_str("leotorrez/HIMI-Package"))
    } else if str_eq_exec(preset, "SRMI") {
        Ok(String::from_str("SpectrumQT/SRMI-Package"))
    } else if str_eq_exec(preset, "ZZMI") {
        Ok(String::from_str("leotorrez/ZZMI-Package"))
    } else if str_eq_exec(preset, "WWMI") {
        Ok(String::from_str("SpectrumQT/WWMI-Package"))
    } else if str_eq_exec(preset, "EFMI") {
        Ok(String::from_str("SpectrumQT/EFMI-Package"))
    } else if str_eq_exec(preset, "AEMI") {
        Ok(String::from_str("StarBobis/MinBase-Package"))
    } else {
        Err(LibError::NotFound)
    }
}

/// The release-metadata address for a repository.
pub fn github_release_url(repo: &str) -> (r: String)
    ensures
        r@ == "https://api.github.com/repos/"@ + repo@ + "/releases/latest"@,
{
    concat3("https://api.github.com/repos/", repo, "/releases/latest")
}

/// The launcher-service game id for a preset, where the background
/// auto-update supports it.
pub open spec fn spec_game_id(p: Seq<char>) -> Option<Seq<char>> {
    if p == "GIMI"@ {
        Some("1Z8W5NHUQb"@)
    } else if p == "HIMI"@ {
        Some("osvnlOc0S8"@)
    } else if p == "SRMI"@ {
        Some("64kMb5iAWu"@)
    } else if p == "ZZMI"@ {
        Some("x6znKlJ0xK"@)
    } else {
        None
    }
}

/// Looks up the launcher-service game id.
pub fn game_id(preset: &str) -> (r: Result<String, LibError>)
    ensures
        match r {
            Ok(s) => spec_game_id(preset@) == Some(s@),
            Err(e) => e == LibError::NotFound && spec_game_id(preset@) is None,
        },
{
    if str_eq_exec(preset, "GIMI") {
        Ok(String::from_str("1Z8W5NHUQb"))
    } else if str_eq_exec(preset, "HIMI") {
        Ok(String::from_str("osvnlOc0S8"))
    } else if str_eq_exec(preset, "SRMI") {
        Ok(String::from_str("64kMb5iAWu"))
    } else if str_eq_exec(preset, "ZZMI") {
        Ok(String::from_str("x6znKlJ0xK"))
    } else {
        Err(LibError::NotFound)
    }
}

/// The launcher-service address that lists a game's basic info.
pub fn hyp_api_url(id: &str) -> (r: String)
    ensures
        r@
            == "https://hyp-api.mihoyo.com/hyp/hyp-connect/api/getAllGameBasicInfo?launcher_id=jGHBHlcOq1&language=zh-cn&game_id="@
            + id@,
{
    concat2(
        "https://hyp-api.mihoyo.com/hyp/hyp-connect/api/getAllGameBasicInfo?launcher_id=jGHBHlcOq1&language=zh-cn&game_id=",
        id,
    )
}

/// Picks the release asset to download: the first whose name ends in
/// `.zip`, else the first asset at all; none when the list is empty.
pub fn pick_zip_asset(names: &Vec<String>) -> (r: Option<usize>)
    ensures
        match r {
            Some(i) => i < names@.len() && (if ends_with(names@[i as int]@, ".zip"@) {
                forall|k: int| 0 <= k < i ==> !ends_with((#[trigger] names@[k])@, ".zip"@)
            } else {
                i == 0 && forall|k: int|
                    0 <= k < names@.len() ==> !ends_with((#[trigger] names@[k])@, ".zip"@)
            }),
            None => names@.len() == 0,
        },
{
    let n = names.len();
    let mut i: usize = 0;
    while i < n
        invariant
            0 <= i <= n,
            n == names@.len(),
            forall|k: int| 0 <= k < i ==> !ends_with((#[trigger] names@[k])@, ".zip"@),
        decreases n - i,
    {
        if str_ends_with(names[i].as_str(), ".zip") {
            return Some(i);
        }
        i += 1;
    }
    if n > 0 {
        Some(0)
    } else {
        None
    }
}

/// The existing background files that a new background of the given type
/// replaces; an unknown type is rejected.
pub fn background_candidates(bg_type: &str) -> (r: Result<Vec<String>, LibError>)
    ensures
        match r {
            Ok(v) => (bg_type@ == "image"@ && v.deep_view() =~= seq![
                "Background.png"@,
                "Background.webp"@,
                "Background.jpg"@,
                "Background.jpeg"@,
            ]) || (bg_type@ == "video"@ && v.deep_view() =~= seq![
                "Background.mp4"@,
                "Background.webm"@,
                "Background.mkv"@,
            ]),
            Err(e) => e == LibError::UnsupportedFormat && bg_type@ != "image"@ && bg_type@
                != "video"@,
        },
{
    if str_eq_exec(bg_type, "image") {
        let mut v: Vec<String> = Vec::new();
        v.push(String::from_str("Background.png"));
        v.push(String::from_str("Background.webp"));
        v.push(String::from_str("Background.jpg"));
        v.push(String::from_str("Background.jpeg"));
        assert(v.deep_view() =~= seq![
            "Background.png"@,
            "Background.webp"@,
            "Background.jpg"@,
            "Background.jpeg"@,
        ]);
        Ok(v)
    } else if str_eq_exec(bg_type, "video") {
        let mut v: Vec<String> = Vec::new();
        v.push(String::from_str("Background.mp4"));
        v.push(String::from_str("Background.webm"));
        v.push(String::from_str("Background.mkv"));
        assert(v.deep_view() =~= seq!["Background.mp4"@, "Background.webm"@, "Background.mkv"@]);
        Ok(v)
    } else {
        Err(LibError::UnsupportedFormat)
    }
}

/// The file name a background with the given extension is stored under.
pub fn background_file_name(ext: &str) -> (r: String)
    ensures
        r@ == "Background."@ + ext@,
{
    concat2("Background.", ext)
}

/// One entry of the sidebar-visibility list.
#[derive(Debug, Clone)]
#[verifier::ext_equal]
pub struct GameIconSetting {
    pub game_name: String,
    pub show: bool,
}

/// Whether the list carries an entry for the given name.
pub open spec fn has_entry(l: Seq<GameIconSetting>, name: Seq<char>) -> bool {
    exists|i: int| 0 <= i < l.len() && (#[trigger] l[i].game_name)@ == name
}

/// Updates the first entry for `name` to the given visibility, or appends
/// a new entry when none exists. All other entries are untouched.
pub fn set_visibility(v: &Vec<GameIconSetting>, name: &str, visible: bool) -> (r: Vec<
    GameIconSetting,
>)
    ensures
        has_entry(v@, name@) ==> {
            let i = first_entry(v@, name@);
            &&& 0 <= i < v@.len()
            &&& r@ == v@.update(i, GameIconSetting { game_name: v@[i].game_name, show: visible })
            &&& (v@[i].game_name)@ == name@
        },
        !has_entry(v@, name@) ==> r@.len() == v@.len() + 1 && (forall|k: int|
            0 <= k < v@.len() ==> r@[k] == v@[k]) && (r@[v@.len() as int].game_name)@ == name@
            && r@[v@.len() as int].show == visible,
{
    let n = v.len();
    let mut found: Option<usize> = None;
    let mut i: usize = 0;
    while i < n
        invariant
            0 <= i <= n,
            n == v@.len(),
            match found {
                Some(j) => j < i && (v@[j as int].game_name)@ == name@ && forall|k: int|
                    0 <= k < j ==> (#[trigger] v@[k].game_name)@ != name@,
                None => forall|k: int| 0 <= k < i ==> (#[trigger] v@[k].game_name)@ != name@,
            },
        decreases n - i,
    {
        if found.is_none() && str_eq_exec(v[i].game_name.as_str(), name) {
            found = Some(i);
        }
        i += 1;
    }
    let mut out: Vec<GameIconSetting> = Vec::new();
    let mut k: usize = 0;
    while k < n
        invariant
            0 <= k <= n,
            n == v@.len(),
            out@.len() == k,
            match found {
                Some(j) => j < n && forall|p: int|
                    0 <= p < k ==> #[trigger] out@[p] == (if p == j as int {
                        GameIconSetting { game_name: v@[j as int].game_name, show: visible }
                    } else {
                        v@[p]
                    }),
                None => forall|p: int| 0 <= p < k ==> #[trigger] out@[p] == v@[p],
            },
        decreases n - k,
    {
        let show = match found {
            Some(j) => if k == j {
                visible
            } else {
                v[k].show
            },
            None => v[k].show,
        };
        let entry = GameIconSetting { game_name: v[k].game_name.clone(), show };
        out.push(entry);
        proof {
            match found {
                Some(j) => {
                    if k == j {
                        assert(out@[k as int] =~= GameIconSetting {
                            game_name: v@[j as int].game_name,
                            show: visible,
                        });
                    } else {
                        assert(out@[k as int] =~= v@[k as int]);
                    }
                },
                None => {
                    assert(out@[k as int] =~= v@[k as int]);
                },
            }
        }
        k += 1;
    }
    match found {
        Some(j) => {
            proof {
                lemma_first_entry(v@, name@, j as int);
                assert(out@ =~= v@.update(
                    j as int,
                    GameIconSetting { game_name: v@[j as int].game_name, show: visible },
                ));
            }
            out
        },
        None => {
            out.push(GameIconSetting { game_name: String::from_str(name), show: visible });
            proof {
                if has_entry(v@, name@) {
                    let w = choose|w: int|
                        0 <= w < v@.len() && (#[trigger] v@[w].game_name)@ == name@;
                    assert((v@[w].game_name)@ != name@);
                }
            }
            out
        },
    }
}

/// The index of the first entry with the given name.
pub open spec fn first_entry(l: Seq<GameIconSetting>, name: Seq<char>) -> int
    decreases l.len(),
{
    if l.len() == 0 {
        0
    } else if (l[0].game_name)@ == name {
        0
    } else {
        1 + first_entry(l.skip(1), name)
    }
}

proof fn lemma_first_entry(l: Seq<GameIconSetting>, name: Seq<char>, i: int)
    requires
        0 <= i < l.len(),
        (l[i].game_name)@ == name,
        forall|k: int| 0 <= k < i ==> (#[trigger] l[k].game_name)@ != name,
    ensures
        first_entry(l, name) == i,
    decreases l.len(),
{
    if i > 0 {
        assert(forall|k: int| 0 <= k < l.skip(1).len() ==> l.skip(1)[k] == l[k + 1]);
        lemma_first_entry(l.skip(1), name, i - 1);
    }
}

/// The sidebar shows a game only when its entry says so; a game without an
/// entry stays hidden.
pub fn sidebar_visible(entry: &Option<bool>) -> (r: bool)
    ensures
        r == match *entry {
            Some(b) => b,
            None => false,
        },
{
    match entry {
        Some(b) => *b,
        None => false,
    }
}

/// The greeting returned to the front end.
pub fn greet(name: &str) -> (r: String)
    ensures
        r@ == "Hello, "@ + name@ + "! You've been greeted from Rust!"@,
{
    concat3("Hello, ", name, "! You've been greeted from Rust!")
}

} // verus!
